//! Buckets: the blocks of the key file, and of the data file's spill records.

use crate::codec::{get_be, put_be};
use crate::error::Error;
use crate::format::{put_zeros, BUCKET_HEADER_SIZE, ENTRY_SIZE, LIMIT48};
use vstd::prelude::*;

verus! {

/// Where a data record stands, and what is known of it without reading it.
#[derive(Clone, Copy, Debug, PartialEq, Eq, Structural)]
pub struct BucketEntry {
    /// Offset of the record in the data file.
    pub offset: u64,
    /// Bytes in the record's value.
    pub size: u64,
    /// The upper 48 bits of the key's hash.
    pub hash: u64,
}

impl BucketEntry {
    /// Every field fits in 48 bits.
    pub open spec fn fits(self) -> bool {
        self.offset < LIMIT48 && self.size < LIMIT48 && self.hash < LIMIT48
    }

    /// The entry's bytes.
    pub open spec fn encoding(self) -> Seq<u8> {
        crate::codec::be_bytes(self.offset as nat, 6) + crate::codec::be_bytes(self.size as nat, 6)
            + crate::codec::be_bytes(self.hash as nat, 6)
    }

    /// The entry whose bytes start at `at`.
    pub open spec fn decoding(bytes: Seq<u8>, at: int) -> BucketEntry {
        BucketEntry {
            offset: crate::format::field(bytes, at, 6) as u64,
            size: crate::format::field(bytes, at + 6, 6) as u64,
            hash: crate::format::field(bytes, at + 12, 6) as u64,
        }
    }
}

/// The entries' bytes, one entry after the other.
pub open spec fn entries_encoding(entries: Seq<BucketEntry>) -> Seq<u8>
    decreases entries.len(),
{
    if entries.len() == 0 {
        Seq::empty()
    } else {
        entries_encoding(entries.drop_last()) + entries.last().encoding()
    }
}

/// The place of a hash among entries: before the first whose hash is not
/// smaller.
pub open spec fn slot(entries: Seq<BucketEntry>, hash: u64) -> int
    decreases entries.len(),
{
    if entries.len() == 0 || entries[0].hash >= hash {
        0
    } else {
        1 + slot(entries.skip(1), hash)
    }
}

/// What a bucket holds.
#[verifier::ext_equal]
pub struct BucketView {
    /// Offset of the spill record that continues the bucket, or zero.
    pub spill: u64,
    pub entries: Seq<BucketEntry>,
}

impl BucketView {
    /// A bucket that holds nothing.
    pub open spec fn blank() -> BucketView {
        BucketView { spill: 0, entries: Seq::empty() }
    }

    /// The bucket can be written in a block of `block_size` bytes.
    pub open spec fn fits(self, block_size: int) -> bool {
        &&& BUCKET_HEADER_SIZE + ENTRY_SIZE * self.entries.len() <= block_size <= 0xffff
        &&& self.spill < LIMIT48
        &&& forall|i: int| 0 <= i < self.entries.len() ==> (#[trigger] self.entries[i]).fits()
    }

    /// The bucket's block.
    pub open spec fn encoding(self, block_size: int) -> Seq<u8> {
        crate::codec::be_bytes(self.entries.len(), 2) + crate::codec::be_bytes(self.spill as nat, 6)
            + entries_encoding(self.entries) + crate::format::zeros(
            (block_size - BUCKET_HEADER_SIZE - ENTRY_SIZE * self.entries.len()) as nat,
        )
    }

    /// The bucket that a block holds. None where the block is too short for
    /// the number of entries that it states.
    pub open spec fn decoding(bytes: Seq<u8>) -> Option<BucketView> {
        if bytes.len() < BUCKET_HEADER_SIZE || bytes.len() < BUCKET_HEADER_SIZE + ENTRY_SIZE
            * crate::format::field(bytes, 0, 2) {
            None
        } else {
            Some(
                BucketView {
                    spill: crate::format::field(bytes, 2, 6) as u64,
                    entries: Seq::new(
                        crate::format::field(bytes, 0, 2),
                        |i: int|
                            BucketEntry::decoding(bytes, BUCKET_HEADER_SIZE + ENTRY_SIZE * i),
                    ),
                },
            )
        }
    }

    /// The bucket with one more entry, at its place among the hashes.
    pub open spec fn with_entry(self, entry: BucketEntry) -> BucketView {
        BucketView {
            spill: self.spill,
            entries: self.entries.insert(slot(self.entries, entry.hash), entry),
        }
    }

    /// The entries stand in the order of their hashes.
    pub open spec fn sorted(self) -> bool {
        forall|i: int, j: int|
            0 <= i <= j < self.entries.len() ==> self.entries[i].hash <= self.entries[j].hash
    }
}

/// A bucket in memory.
#[derive(Debug)]
pub struct Bucket {
    /// Offset of the spill record that continues the bucket, or zero.
    pub spill: u64,
    pub entries: Vec<BucketEntry>,
}

impl View for Bucket {
    type V = BucketView;

    open spec fn view(&self) -> BucketView {
        BucketView { spill: self.spill, entries: self.entries@ }
    }
}

impl Bucket {
    /// A bucket that holds nothing.
    pub fn new() -> (bucket: Bucket)
        ensures
            bucket@ == BucketView::blank(),
    {
        let bucket = Bucket { spill: 0, entries: Vec::new() };
        assert(bucket@ =~= BucketView::blank());
        bucket
    }

    /// Adds an entry at its place among the hashes.
    pub fn insert(&mut self, entry: BucketEntry)
        ensures
            final(self)@ == old(self)@.with_entry(entry),
    {
        let mut at: usize = 0;
        while at < self.entries.len() && self.entries[at].hash < entry.hash
            invariant
                at <= self.entries@.len(),
                *self == *old(self),
                forall|i: int| 0 <= i < at ==> (#[trigger] self.entries@[i]).hash < entry.hash,
            decreases self.entries@.len() - at,
        {
            at = at + 1;
        }
        proof {
            lemma_slot(self.entries@, entry.hash, at as int);
        }
        self.entries.insert(at, entry);
        assert(self@ =~= old(self)@.with_entry(entry));
    }

    /// The bucket's block.
    pub fn to_bytes(&self, block_size: usize) -> (bytes: Vec<u8>)
        requires
            self@.fits(block_size as int),
        ensures
            bytes@ == self@.encoding(block_size as int),
            bytes@.len() == block_size,
    {
        let count: usize = self.entries.len();
        let mut buf: Vec<u8> = Vec::new();
        put_be(&mut buf, count as u64, 2);
        put_be(&mut buf, self.spill, 6);
        let ghost head = buf@;
        proof {
            broadcast use crate::codec::lemma_be_bytes_len;

            assert(head =~= crate::codec::be_bytes(count as nat, 2) + crate::codec::be_bytes(
                self.spill as nat,
                6,
            ));
            assert(self.entries@.take(0) =~= Seq::empty());
            assert(buf@ =~= head + entries_encoding(self.entries@.take(0)));
        }
        let mut i: usize = 0;
        while i < count
            invariant
                i <= count == self.entries@.len(),
                buf@ == head + entries_encoding(self.entries@.take(i as int)),
            decreases count - i,
        {
            let entry: BucketEntry = self.entries[i];
            put_be(&mut buf, entry.offset, 6);
            put_be(&mut buf, entry.size, 6);
            put_be(&mut buf, entry.hash, 6);
            proof {
                let prefix = self.entries@.take(i + 1);
                assert(prefix.drop_last() =~= self.entries@.take(i as int));
                assert(prefix.last() == entry);
                assert(buf@ =~= head + entries_encoding(prefix));
            }
            i = i + 1;
        }
        proof {
            assert(self.entries@.take(count as int) =~= self.entries@);
            lemma_entries_encoding_len(self.entries@);
        }
        put_zeros(&mut buf, block_size - BUCKET_HEADER_SIZE - ENTRY_SIZE * count);
        buf
    }

    /// The bucket that a block holds.
    pub fn from_bytes(bytes: &[u8]) -> (bucket: Result<Bucket, Error>)
        ensures
            match BucketView::decoding(bytes@) {
                Some(view) => bucket is Ok && bucket->Ok_0@ == view,
                None => bucket == Err::<Bucket, Error>(Error::InvalidBucket),
            },
    {
        if bytes.len() < BUCKET_HEADER_SIZE {
            return Err(Error::InvalidBucket);
        }
        proof {
            crate::codec::lemma_radix_values();
        }
        let count: usize = get_be(bytes, 0, 2) as usize;
        if (bytes.len() - BUCKET_HEADER_SIZE) / ENTRY_SIZE < count {
            return Err(Error::InvalidBucket);
        }
        let spill: u64 = get_be(bytes, 2, 6);
        let mut entries: Vec<BucketEntry> = Vec::new();
        let mut i: usize = 0;
        while i < count
            invariant
                i <= count,
                count == crate::format::field(bytes@, 0, 2),
                BUCKET_HEADER_SIZE + ENTRY_SIZE * count <= bytes@.len(),
                entries@.len() == i,
                forall|j: int|
                    0 <= j < i ==> entries@[j] == BucketEntry::decoding(
                        bytes@,
                        BUCKET_HEADER_SIZE + ENTRY_SIZE * j,
                    ),
            decreases count - i,
        {
            assert(bytes.len() == bytes@.len());
            let at: usize = BUCKET_HEADER_SIZE + ENTRY_SIZE * i;
            entries.push(
                BucketEntry {
                    offset: get_be(bytes, at, 6),
                    size: get_be(bytes, at + 6, 6),
                    hash: get_be(bytes, at + 12, 6),
                },
            );
            i = i + 1;
        }
        let bucket = Bucket { spill, entries };
        assert(bucket@ =~= BucketView::decoding(bytes@).unwrap());
        Ok(bucket)
    }
}

pub proof fn lemma_slot(entries: Seq<BucketEntry>, hash: u64, at: int)
    requires
        0 <= at <= entries.len(),
        forall|i: int| 0 <= i < at ==> (#[trigger] entries[i]).hash < hash,
        at < entries.len() ==> entries[at].hash >= hash,
    ensures
        slot(entries, hash) == at,
    decreases entries.len(),
{
    if at > 0 {
        let rest = entries.skip(1);
        assert forall|i: int| 0 <= i < at - 1 implies (#[trigger] rest[i]).hash < hash by {
            assert(rest[i] == entries[i + 1]);
        }
        lemma_slot(rest, hash, at - 1);
        assert(entries[0].hash < hash);
    }
}

/// The place of a hash is one of the entries' places, or the end.
pub proof fn lemma_slot_range(entries: Seq<BucketEntry>, hash: u64)
    ensures
        0 <= slot(entries, hash) <= entries.len(),
        forall|i: int| 0 <= i < slot(entries, hash) ==> (#[trigger] entries[i]).hash < hash,
        slot(entries, hash) < entries.len() ==> entries[slot(entries, hash)].hash >= hash,
    decreases entries.len(),
{
    if entries.len() > 0 && entries[0].hash < hash {
        let rest = entries.skip(1);
        lemma_slot_range(rest, hash);
        assert forall|i: int| 0 <= i < slot(entries, hash) implies (#[trigger] entries[i]).hash
            < hash by {
            if i > 0 {
                assert(rest[i - 1] == entries[i]);
            }
        }
    }
}

pub proof fn lemma_entries_encoding_len(entries: Seq<BucketEntry>)
    ensures
        entries_encoding(entries).len() == ENTRY_SIZE * entries.len(),
    decreases entries.len(),
{
    broadcast use crate::codec::lemma_be_bytes_len;

    if entries.len() > 0 {
        lemma_entries_encoding_len(entries.drop_last());
    }
}

/// Each entry's bytes stand at its place among the entries' bytes.
pub proof fn lemma_entries_encoding_at(entries: Seq<BucketEntry>, i: int)
    requires
        0 <= i < entries.len(),
    ensures
        entries_encoding(entries).len() == ENTRY_SIZE * entries.len(),
        entries_encoding(entries).subrange(ENTRY_SIZE * i, ENTRY_SIZE * i + ENTRY_SIZE)
            == entries[i].encoding(),
    decreases entries.len(),
{
    broadcast use crate::codec::lemma_be_bytes_len;

    lemma_entries_encoding_len(entries);
    lemma_entries_encoding_len(entries.drop_last());
    let all = entries_encoding(entries);
    let before = entries_encoding(entries.drop_last());
    if i == entries.len() - 1 {
        assert(all.subrange(ENTRY_SIZE * i, ENTRY_SIZE * i + ENTRY_SIZE) =~= entries[i].encoding());
    } else {
        lemma_entries_encoding_at(entries.drop_last(), i);
        assert(all.subrange(ENTRY_SIZE * i, ENTRY_SIZE * i + ENTRY_SIZE) =~= before.subrange(
            ENTRY_SIZE * i,
            ENTRY_SIZE * i + ENTRY_SIZE,
        ));
    }
}

/// A bucket is read back as it was written.
pub proof fn law_bucket_read_back(bucket: BucketView, block_size: int)
    requires
        bucket.fits(block_size),
    ensures
        bucket.encoding(block_size).len() == block_size,
        BucketView::decoding(bucket.encoding(block_size)) == Some(bucket),
{
    broadcast use crate::codec::lemma_be_bytes_len;

    crate::codec::lemma_radix_values();
    let bytes = bucket.encoding(block_size);
    let count = bucket.entries.len();
    lemma_entries_encoding_len(bucket.entries);
    assert(bytes.subrange(0, 2) =~= crate::codec::be_bytes(count, 2));
    assert(bytes.subrange(2, 8) =~= crate::codec::be_bytes(bucket.spill as nat, 6));
    crate::codec::law_integer_read_back(count, 2);
    crate::codec::law_integer_read_back(bucket.spill as nat, 6);
    assert forall|i: int| 0 <= i < count implies BucketEntry::decoding(
        bytes,
        BUCKET_HEADER_SIZE + ENTRY_SIZE * i,
    ) == #[trigger] bucket.entries[i] by {
        let at = BUCKET_HEADER_SIZE + ENTRY_SIZE * i;
        let entry = bucket.entries[i];
        assert(entry.fits());
        lemma_entries_encoding_at(bucket.entries, i);
        let own = bytes.subrange(at, at + ENTRY_SIZE);
        assert(own =~= entries_encoding(bucket.entries).subrange(
            ENTRY_SIZE * i,
            ENTRY_SIZE * i + ENTRY_SIZE,
        ));
        assert(bytes.subrange(at, at + 6) =~= own.subrange(0, 6));
        assert(bytes.subrange(at + 6, at + 12) =~= own.subrange(6, 12));
        assert(bytes.subrange(at + 12, at + 18) =~= own.subrange(12, 18));
        assert(own.subrange(0, 6) =~= crate::codec::be_bytes(entry.offset as nat, 6));
        assert(own.subrange(6, 12) =~= crate::codec::be_bytes(entry.size as nat, 6));
        assert(own.subrange(12, 18) =~= crate::codec::be_bytes(entry.hash as nat, 6));
        crate::codec::law_integer_read_back(entry.offset as nat, 6);
        crate::codec::law_integer_read_back(entry.size as nat, 6);
        crate::codec::law_integer_read_back(entry.hash as nat, 6);
    }
    assert(BucketView::decoding(bytes).unwrap() =~= bucket);
}

/// What a block holds fits in 48-bit fields, and in the block.
pub proof fn lemma_decoded_bucket_fits(bytes: Seq<u8>)
    requires
        BucketView::decoding(bytes) is Some,
        bytes.len() <= 0xffff,
    ensures
        BucketView::decoding(bytes)->Some_0.fits(bytes.len() as int),
{
    crate::codec::lemma_radix_values();
    crate::codec::lemma_be_value_bound(bytes.subrange(2, 8));
    let view = BucketView::decoding(bytes)->Some_0;
    assert forall|i: int| 0 <= i < view.entries.len() implies (#[trigger] view.entries[i]).fits() by {
        let at = BUCKET_HEADER_SIZE + ENTRY_SIZE * i;
        crate::codec::lemma_be_value_bound(bytes.subrange(at, at + 6));
        crate::codec::lemma_be_value_bound(bytes.subrange(at + 6, at + 12));
        crate::codec::lemma_be_value_bound(bytes.subrange(at + 12, at + 18));
    }
}

/// An entry goes before the first whose hash is not smaller, and moves those
/// from there on by one place.
pub proof fn law_entry_placed(bucket: BucketView, entry: BucketEntry) -> (at: int)
    ensures
        0 <= at <= bucket.entries.len(),
        forall|i: int| 0 <= i < at ==> (#[trigger] bucket.entries[i]).hash < entry.hash,
        at < bucket.entries.len() ==> bucket.entries[at].hash >= entry.hash,
        bucket.with_entry(entry).spill == bucket.spill,
        bucket.with_entry(entry).entries == bucket.entries.take(at) + seq![entry]
            + bucket.entries.skip(at),
{
    let at = slot(bucket.entries, entry.hash);
    lemma_slot_range(bucket.entries, entry.hash);
    assert(bucket.with_entry(entry).entries =~= bucket.entries.take(at) + seq![entry]
        + bucket.entries.skip(at));
    at
}

/// A bucket whose entries stand in the order of their hashes keeps that order
/// when an entry is added.
pub proof fn law_insertion_keeps_order(bucket: BucketView, entry: BucketEntry)
    requires
        bucket.sorted(),
    ensures
        bucket.with_entry(entry).sorted(),
        bucket.with_entry(entry).entries.contains(entry),
{
    lemma_slot_range(bucket.entries, entry.hash);
    let at = slot(bucket.entries, entry.hash);
    let after = bucket.with_entry(entry).entries;
    assert(after[at] == entry);
    assert forall|i: int, j: int| 0 <= i <= j < after.len() implies after[i].hash
        <= after[j].hash by {
        let a = if i < at { i } else { i - 1 };
        let b = if j < at { j } else { j - 1 };
        if i != at {
            assert(after[i] == bucket.entries[a]);
        }
        if j != at {
            assert(after[j] == bucket.entries[b]);
        }
        if i == at && j > at {
            assert(bucket.entries[at].hash <= bucket.entries[b].hash);
        }
    }
}

} // verus!

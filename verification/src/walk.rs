//! Walking a bucket and the spill records that continue it.
//!
//! A walk reads no file itself. It says which bytes it needs next, takes them,
//! and moves on; it stops at each record of interest until it is told to go
//! past it.

use crate::bucket::{Bucket, BucketEntry, BucketView};
use crate::codec::{get_be, read_u48};
use crate::error::Error;
use crate::format::{KeyHeader, BUCKET_HEADER_SIZE, LIMIT48, SPILL_HEADER_SIZE};
use vstd::prelude::*;

verus! {

/// One of a store's two files.
#[derive(Clone, Copy, Debug, PartialEq, Eq, Structural)]
pub enum FileKind {
    Dat,
    Key,
}

/// Bytes to be read from a file, all of them.
#[derive(Clone, Copy, Debug, PartialEq, Eq, Structural)]
pub struct Request {
    pub file: FileKind,
    pub offset: u64,
    pub len: u64,
}

/// What a walk waits for.
#[derive(Clone, Copy, Debug, PartialEq, Eq, Structural)]
pub enum Stage {
    /// The block of the bucket that the walk starts at.
    Bucket,
    /// The size field of the record of an entry.
    Size { index: usize },
    /// The key and value of the record of an entry, or its key only.
    Body { index: usize, total: u64 },
    /// To be told to go past the record of an entry.
    At { index: usize },
    /// The header of the spill record at `offset`.
    SpillSize { offset: u64 },
    /// The bucket in the spill record at `offset`.
    SpillBody { offset: u64, len: u64 },
    /// Nothing: every entry has been passed.
    End,
}

/// A data record as read.
#[derive(Debug)]
pub struct Record {
    pub key: Vec<u8>,
    pub value: Vec<u8>,
}

impl View for Record {
    type V = RecordView;

    open spec fn view(&self) -> RecordView {
        RecordView { key: self.key@, value: self.value@ }
    }
}

/// The key and the value of a data record; the value is empty where it is not
/// read.
#[verifier::ext_equal]
pub struct RecordView {
    pub key: Seq<u8>,
    pub value: Seq<u8>,
}

/// An entry that a walk stops at: any, or those with the hash it looks for.
pub open spec fn of_interest(filter: Option<u64>, entry: BucketEntry) -> bool {
    filter matches Some(hash) ==> entry.hash == hash
}

/// The first entry of interest at or after `from`, or the number of entries.
pub open spec fn next_of_interest(filter: Option<u64>, entries: Seq<BucketEntry>, from: int) -> int
    decreases entries.len() - from,
{
    if from >= entries.len() {
        entries.len() as int
    } else if of_interest(filter, entries[from]) {
        from
    } else {
        next_of_interest(filter, entries, from + 1)
    }
}

/// A walk in progress.
#[verifier::ext_equal]
pub struct WalkView {
    pub key_size: u16,
    pub block_size: u16,
    /// The index of the bucket that the walk starts at.
    pub index: u64,
    /// The hash of the entries to stop at; none stops at every entry.
    pub filter: Option<u64>,
    /// Whether the walk reads the values of the records that it stops at, or
    /// their keys only.
    pub values: bool,
    /// The bucket that the walk started at.
    pub home: BucketView,
    /// The spill record that the walk is in, or zero in the first bucket.
    pub page: u64,
    /// The bucket in that spill record.
    pub spilled: BucketView,
    pub stage: Stage,
}

impl WalkView {
    /// A walk that has read nothing.
    pub open spec fn start(
        header: KeyHeader,
        index: u64,
        filter: Option<u64>,
        values: bool,
    ) -> WalkView {
        WalkView {
            key_size: header.key_size,
            block_size: header.block_size,
            index,
            filter,
            values,
            home: BucketView::blank(),
            page: 0,
            spilled: BucketView::blank(),
            stage: Stage::Bucket,
        }
    }

    /// The bucket that the walk is in.
    pub open spec fn current(self) -> BucketView {
        if self.page == 0 {
            self.home
        } else {
            self.spilled
        }
    }

    /// The walk at the next entry of interest of its bucket, at or after
    /// `from`; past them all it goes on to the spill record, if there is one.
    pub open spec fn settled(self, from: int) -> WalkView {
        let at = next_of_interest(self.filter, self.current().entries, from);
        let stage = if at < self.current().entries.len() {
            Stage::Size { index: at as usize }
        } else if self.current().spill == 0 {
            Stage::End
        } else {
            Stage::SpillSize { offset: self.current().spill }
        };
        WalkView { stage, ..self }
    }

    /// The bytes that the walk needs next.
    pub open spec fn wanted(self) -> Option<Request> {
        match self.stage {
            Stage::Bucket => Some(
                Request {
                    file: FileKind::Key,
                    offset: ((self.index + 1) * self.block_size) as u64,
                    len: self.block_size as u64,
                },
            ),
            Stage::Size { index } => Some(
                Request {
                    file: FileKind::Dat,
                    offset: self.current().entries[index as int].offset,
                    len: 6,
                },
            ),
            Stage::Body { index, total } => Some(
                Request {
                    file: FileKind::Dat,
                    offset: (self.current().entries[index as int].offset + 6) as u64,
                    len: if self.values {
                        total
                    } else {
                        self.key_size as u64
                    },
                },
            ),
            Stage::SpillSize { offset } => Some(
                Request { file: FileKind::Dat, offset, len: SPILL_HEADER_SIZE as u64 },
            ),
            Stage::SpillBody { offset, len } => Some(
                Request { file: FileKind::Dat, offset: (offset + SPILL_HEADER_SIZE) as u64, len },
            ),
            Stage::At { .. } | Stage::End => None,
        }
    }

    /// The walk after the bytes that it needed, with the record that they
    /// complete, if they complete one.
    pub open spec fn given(self, bytes: Seq<u8>) -> Result<(WalkView, Option<RecordView>), Error> {
        match self.stage {
            Stage::Bucket => match BucketView::decoding(bytes) {
                Some(home) => Ok((WalkView { home, ..self }.settled(0), None)),
                None => Err(Error::InvalidBucket),
            },
            Stage::Size { index } => {
                let total = crate::codec::be_value(bytes);
                if total < self.key_size {
                    Err(Error::RecordTooSmall)
                } else {
                    Ok(
                        (
                            WalkView { stage: Stage::Body { index, total: total as u64 }, ..self },
                            None,
                        ),
                    )
                }
            },
            Stage::Body { index, .. } => Ok(
                (
                    WalkView { stage: Stage::At { index }, ..self },
                    Some(
                        RecordView {
                            key: bytes.take(self.key_size as int),
                            value: bytes.skip(self.key_size as int),
                        },
                    ),
                ),
            ),
            Stage::SpillSize { offset } => {
                let len = crate::format::field(bytes, 6, 2) as u64;
                Ok((WalkView { stage: Stage::SpillBody { offset, len }, ..self }, None))
            },
            Stage::SpillBody { offset, .. } => match BucketView::decoding(bytes) {
                Some(spilled) => Ok(
                    (WalkView { page: offset, spilled, ..self }.settled(0), None),
                ),
                None => Err(Error::InvalidBucket),
            },
            Stage::At { .. } | Stage::End => Ok((self, None)),
        }
    }

    /// The walk past the record that it stopped at.
    pub open spec fn passed(self) -> WalkView {
        match self.stage {
            Stage::At { index } => self.settled(index + 1),
            _ => self,
        }
    }

    /// The bucket has come out of a block, and its fields fit in 48 bits.
    pub open spec fn small(bucket: BucketView) -> bool {
        &&& bucket.spill < LIMIT48
        &&& bucket.entries.len() <= 0xffff
        &&& forall|i: int| 0 <= i < bucket.entries.len() ==> (#[trigger] bucket.entries[i]).fits()
    }

    /// Every offset that the walk can ask for is one.
    pub open spec fn sound(self) -> bool {
        &&& self.index < u64::MAX
        &&& (self.index + 1) * self.block_size <= u64::MAX
        &&& WalkView::small(self.home)
        &&& WalkView::small(self.spilled)
        &&& self.page < LIMIT48
        &&& self.block_size >= BUCKET_HEADER_SIZE ==> self.home.fits(self.block_size as int)
        &&& match self.stage {
            Stage::Size { index } => index < self.current().entries.len(),
            Stage::Body { index, total } => index < self.current().entries.len() && self.key_size
                <= total < LIMIT48,
            Stage::At { index } => index < self.current().entries.len(),
            Stage::SpillSize { offset } => 0 < offset < LIMIT48,
            Stage::SpillBody { offset, len } => 0 < offset < LIMIT48 && len <= 0xffff,
            Stage::Bucket => self.page == 0,
            Stage::End => true,
        }
    }
}

pub proof fn lemma_next_of_interest(filter: Option<u64>, entries: Seq<BucketEntry>, from: int, at: int)
    requires
        from <= at <= entries.len(),
        forall|i: int| from <= i < at ==> !of_interest(filter, #[trigger] entries[i]),
        at < entries.len() ==> of_interest(filter, entries[at]),
    ensures
        next_of_interest(filter, entries, from) == at,
    decreases at - from,
{
    if from < at {
        lemma_next_of_interest(filter, entries, from + 1, at);
        assert(!of_interest(filter, entries[from]));
    }
}

/// What `next_of_interest` finds, and what it goes past.
pub proof fn lemma_next_of_interest_skips(
    filter: Option<u64>,
    entries: Seq<BucketEntry>,
    from: int,
)
    requires
        0 <= from <= entries.len(),
    ensures
        ({
            let at = next_of_interest(filter, entries, from);
            &&& from <= at <= entries.len()
            &&& forall|i: int| from <= i < at ==> !of_interest(filter, #[trigger] entries[i])
            &&& at < entries.len() ==> of_interest(filter, entries[at])
        }),
    decreases entries.len() - from,
{
    if from < entries.len() && !of_interest(filter, entries[from]) {
        lemma_next_of_interest_skips(filter, entries, from + 1);
    }
}

/// A walk in progress.
#[derive(Debug)]
pub struct Walk {
    pub key_size: u16,
    pub block_size: u16,
    pub index: u64,
    pub filter: Option<u64>,
    pub values: bool,
    pub home: Bucket,
    pub page: u64,
    pub spilled: Bucket,
    pub stage: Stage,
}

impl View for Walk {
    type V = WalkView;

    open spec fn view(&self) -> WalkView {
        WalkView {
            key_size: self.key_size,
            block_size: self.block_size,
            index: self.index,
            filter: self.filter,
            values: self.values,
            home: self.home@,
            page: self.page,
            spilled: self.spilled@,
            stage: self.stage,
        }
    }
}

impl Walk {
    /// A walk of the bucket at `index`, which stops at the entries with the
    /// hash in `filter`, or at every entry, and reads the values there if it
    /// is to.
    pub fn new(header: &KeyHeader, index: u64, filter: Option<u64>, values: bool) -> (walk: Walk)
        requires
            index < u64::MAX,
            (index + 1) * header.block_size <= u64::MAX,
        ensures
            walk@ == WalkView::start(*header, index, filter, values),
            walk@.sound(),
    {
        Walk {
            key_size: header.key_size,
            block_size: header.block_size,
            index,
            filter,
            values,
            home: Bucket::new(),
            page: 0,
            spilled: Bucket::new(),
            stage: Stage::Bucket,
        }
    }

    /// The bucket that the walk is in.
    pub fn current(&self) -> (bucket: &Bucket)
        ensures
            bucket@ == self@.current(),
    {
        if self.page == 0 {
            &self.home
        } else {
            &self.spilled
        }
    }

    /// The bytes that the walk needs next; none where it stands at a record or
    /// at its end.
    pub fn request(&self) -> (request: Option<Request>)
        requires
            self@.sound(),
        ensures
            request == self@.wanted(),
    {
        match self.stage {
            Stage::Bucket => Some(
                Request {
                    file: FileKind::Key,
                    offset: (self.index + 1) * self.block_size as u64,
                    len: self.block_size as u64,
                },
            ),
            Stage::Size { index } => Some(
                Request {
                    file: FileKind::Dat,
                    offset: self.current().entries[index].offset,
                    len: 6,
                },
            ),
            Stage::Body { index, total } => {
                let entry: BucketEntry = self.current().entries[index];
                assert(self@.current().entries[index as int].fits());
                let len: u64 = if self.values {
                    total
                } else {
                    self.key_size as u64
                };
                Some(Request { file: FileKind::Dat, offset: entry.offset + 6, len })
            },
            Stage::SpillSize { offset } => Some(
                Request { file: FileKind::Dat, offset, len: SPILL_HEADER_SIZE as u64 },
            ),
            Stage::SpillBody { offset, len } => Some(
                Request { file: FileKind::Dat, offset: offset + SPILL_HEADER_SIZE as u64, len },
            ),
            Stage::At { .. } => None,
            Stage::End => None,
        }
    }

    /// Moves to the next entry of interest at or after `from`, or on.
    fn settle(&mut self, from: usize)
        requires
            from <= old(self)@.current().entries.len(),
            old(self)@.index < u64::MAX,
            (old(self)@.index + 1) * old(self)@.block_size <= u64::MAX,
            WalkView::small(old(self)@.home),
            WalkView::small(old(self)@.spilled),
            old(self)@.page < LIMIT48,
            old(self)@.block_size >= BUCKET_HEADER_SIZE ==> old(self)@.home.fits(
                old(self)@.block_size as int,
            ),
        ensures
            final(self)@ == old(self)@.settled(from as int),
            final(self)@.sound(),
    {
        let count: usize = self.current().entries.len();
        let mut at: usize = from;
        let mut stopped: bool = false;
        while at < count && !stopped
            invariant
                *self == *old(self),
                count == self@.current().entries.len(),
                from <= at <= count,
                forall|i: int|
                    from <= i < at ==> !of_interest(
                        self@.filter,
                        #[trigger] self@.current().entries[i],
                    ),
                stopped ==> at < count && of_interest(
                    self@.filter,
                    self@.current().entries[at as int],
                ),
            decreases
                count - at,
                (if stopped {
                    0int
                } else {
                    1int
                }),
        {
            let hash: u64 = self.current().entries[at].hash;
            let interesting: bool = match self.filter {
                Some(sought) => hash == sought,
                None => true,
            };
            if interesting {
                stopped = true;
            } else {
                at = at + 1;
            }
        }
        proof {
            lemma_next_of_interest(
                self@.filter,
                self@.current().entries,
                from as int,
                at as int,
            );
        }
        let spill: u64 = self.current().spill;
        if at < count {
            self.stage = Stage::Size { index: at };
        } else if spill == 0 {
            self.stage = Stage::End;
        } else {
            self.stage = Stage::SpillSize { offset: spill };
        }
    }

    /// Takes the bytes that the walk needed. A walk that fails stays as it is.
    pub fn resume(&mut self, bytes: &[u8]) -> (record: Result<Option<Record>, Error>)
        requires
            old(self)@.sound(),
            old(self)@.wanted() matches Some(request) && bytes@.len() == request.len,
        ensures
            final(self)@.sound(),
            match old(self)@.given(bytes@) {
                Ok((walk, None)) => {
                    &&& final(self)@ == walk
                    &&& record matches Ok(None)
                },
                Ok((walk, Some(read))) => {
                    &&& final(self)@ == walk
                    &&& record matches Ok(Some(got))
                    &&& got@ == read
                },
                Err(error) => {
                    &&& *final(self) == *old(self)
                    &&& record == Err::<Option<Record>, Error>(error)
                },
            },
    {
        match self.stage {
            Stage::Bucket => {
                match Bucket::from_bytes(bytes) {
                    Ok(home) => {
                        proof {
                            crate::bucket::lemma_decoded_bucket_fits(bytes@);
                        }
                        self.home = home;
                        self.settle(0);
                        Ok(None)
                    },
                    Err(error) => Err(error),
                }
            },
            Stage::Size { index } => {
                let total: u64 = read_u48(bytes);
                if total < self.key_size as u64 {
                    Err(Error::RecordTooSmall)
                } else {
                    self.stage = Stage::Body { index, total };
                    Ok(None)
                }
            },
            Stage::Body { index, total } => {
                let key_size: usize = self.key_size as usize;
                assert(bytes.len() == bytes@.len());
                let key = vstd::slice::slice_to_vec(
                    vstd::slice::slice_subrange(bytes, 0, key_size),
                );
                let value = vstd::slice::slice_to_vec(
                    vstd::slice::slice_subrange(bytes, key_size, bytes.len()),
                );
                self.stage = Stage::At { index };
                let record = Record { key, value };
                assert(record@.key =~= bytes@.take(key_size as int));
                assert(record@.value =~= bytes@.skip(key_size as int));
                Ok(Some(record))
            },
            Stage::SpillSize { offset } => {
                proof {
                    crate::codec::lemma_radix_values();
                }
                let len: u64 = get_be(bytes, 6, 2);
                self.stage = Stage::SpillBody { offset, len };
                Ok(None)
            },
            Stage::SpillBody { offset, len } => {
                match Bucket::from_bytes(bytes) {
                    Ok(spilled) => {
                        proof {
                            crate::bucket::lemma_decoded_bucket_fits(bytes@);
                        }
                        self.page = offset;
                        self.spilled = spilled;
                        self.settle(0);
                        Ok(None)
                    },
                    Err(error) => Err(error),
                }
            },
            Stage::At { .. } => Ok(None),
            Stage::End => Ok(None),
        }
    }

    /// Goes past the record that the walk stopped at.
    pub fn pass(&mut self)
        requires
            old(self)@.sound(),
            old(self)@.stage is At,
        ensures
            final(self)@ == old(self)@.passed(),
            final(self)@.sound(),
    {
        if let Stage::At { index } = self.stage {
            let count: usize = self.current().entries.len();
            assert(index < count);
            self.settle(index + 1);
        }
    }
}

} // verus!

//! Splitting a bucket: its entries are parted between the bucket and a new
//! one.

use crate::bucket::BucketEntry;
use crate::error::Error;
use crate::linear::power;
use crate::walk::{Request, Stage, Walk, WalkView};
use vstd::arithmetic::power2::*;
use vstd::prelude::*;

verus! {

/// A key with this hash stays in the bucket at `next` when that bucket is
/// split at `level`.
pub open spec fn stays(level: u32, next: u64, hash: u64) -> bool {
    hash as int % (pow2((level + 1) as nat) as int) == next
}

/// A split in progress.
#[verifier::ext_equal]
pub struct SplitView {
    pub walk: WalkView,
    pub salt: u64,
    pub level: u32,
    pub next: u64,
    /// The entries that stay, in the order in which they were met.
    pub keep: Seq<BucketEntry>,
    /// The entries that move to the new bucket, in that order.
    pub moved: Seq<BucketEntry>,
}

impl SplitView {
    /// The split with one more entry, whose key has this hash.
    pub open spec fn with_entry(self, entry: BucketEntry, hash: u64) -> SplitView {
        if stays(self.level, self.next, hash) {
            SplitView { keep: self.keep.push(entry), ..self }
        } else {
            SplitView { moved: self.moved.push(entry), ..self }
        }
    }

    /// The split after the bytes that it needed: the entry of each record is
    /// placed by the hash of the record's key.
    pub open spec fn given(self, bytes: Seq<u8>) -> Result<SplitView, Error> {
        match self.walk.given(bytes) {
            Err(error) => Err(error),
            Ok((walk, None)) => Ok(SplitView { walk, ..self }),
            Ok((walk, Some(record))) => Ok(
                SplitView { walk: walk.passed(), ..self }.with_entry(
                    walk.current().entries[walk.stage->At_index as int],
                    crate::hash::xxh64_value(record.key, self.salt),
                ),
            ),
        }
    }

    pub open spec fn sound(self) -> bool {
        &&& self.walk.sound()
        &&& self.level < 63
        &&& !(self.walk.stage is At)
        &&& forall|i: int| 0 <= i < self.keep.len() ==> (#[trigger] self.keep[i]).fits()
        &&& forall|i: int| 0 <= i < self.moved.len() ==> (#[trigger] self.moved[i]).fits()
    }
}

/// A split in progress.
#[derive(Debug)]
pub struct Split {
    pub walk: Walk,
    pub salt: u64,
    pub level: u32,
    pub next: u64,
    pub keep: Vec<BucketEntry>,
    pub moved: Vec<BucketEntry>,
}

impl View for Split {
    type V = SplitView;

    open spec fn view(&self) -> SplitView {
        SplitView {
            walk: self.walk@,
            salt: self.salt,
            level: self.level,
            next: self.next,
            keep: self.keep@,
            moved: self.moved@,
        }
    }
}

impl Split {
    /// The bytes that the split needs next; none once every entry is placed.
    pub fn request(&self) -> (request: Option<Request>)
        requires
            self@.sound(),
        ensures
            request == self@.walk.wanted(),
            request is None <==> self@.walk.stage is End,
    {
        self.walk.request()
    }

    /// Places an entry whose key has this hash.
    pub fn sort(&mut self, entry: BucketEntry, hash: u64)
        requires
            old(self)@.level < 63,
        ensures
            final(self)@ == old(self)@.with_entry(entry, hash),
    {
        proof {
            crate::linear::lemma_power_bound((self.level + 1) as u32);
        }
        if hash % power(self.level + 1) == self.next {
            self.keep.push(entry);
        } else {
            self.moved.push(entry);
        }
    }

    /// Takes the bytes that the split needed. A split that fails stays as it
    /// is.
    pub fn resume(&mut self, bytes: &[u8]) -> (outcome: Result<(), Error>)
        requires
            old(self)@.sound(),
            old(self)@.walk.wanted() matches Some(request) && bytes@.len() == request.len,
        ensures
            final(self)@.sound(),
            match old(self)@.given(bytes@) {
                Ok(split) => outcome is Ok && final(self)@ == split,
                Err(error) => outcome == Err::<(), Error>(error) && *final(self) == *old(self),
            },
    {
        match self.walk.resume(bytes) {
            Err(error) => Err(error),
            Ok(None) => Ok(()),
            Ok(Some(record)) => {
                let entry: BucketEntry = match self.walk.stage {
                    Stage::At { index } => {
                        assert(self.walk@.current().entries[index as int].fits());
                        self.walk.current().entries[index]
                    },
                    _ => BucketEntry { offset: 0, size: 0, hash: 0 },
                };
                self.walk.pass();
                let hash: u64 = crate::hash::xxh64(record.key.as_slice(), self.salt);
                self.sort(entry, hash);
                Ok(())
            },
        }
    }
}

} // verus!

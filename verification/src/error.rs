//! Why an operation on a store fails.

use vstd::prelude::*;

verus! {

/// Why an operation on a store fails.
#[derive(Clone, Copy, Debug, PartialEq, Eq, Structural)]
pub enum Error {
    /// A file ends before the bytes that were to be read.
    UnexpectedEof,
    /// The key file does not start with the key file's type tag.
    NotKeyFile,
    /// The key file was written by another version of the format.
    WrongVersion,
    /// The key file's header describes no hash table: its blocks are too small
    /// for it, or it counts too many buckets.
    InvalidHeader,
    /// A bucket counts more entries than its block holds.
    InvalidBucket,
    /// A bucket's spill records lead back to one of them.
    EndlessChain,
    /// A data record is shorter than a key.
    RecordTooSmall,
    /// The data file would outgrow its 48-bit offsets.
    DataFileFull,
    /// The key file would outgrow the offsets of a file, or its count of keys.
    KeyFileFull,
}

} // verus!

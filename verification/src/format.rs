//! The layout of the two files.
//!
//! The data file is a header, then data records and spill records in the order
//! in which they were appended:
//!
//! - data record: size of key and value together (6 bytes), key, value
//! - spill record: zero (6 bytes), block size (2 bytes), one bucket
//!
//! The key file is a header, padded to a whole block, then one block for each
//! bucket. A bucket is the number of its entries (2 bytes), the offset of the
//! spill record that continues it, or zero (6 bytes), and its entries, each
//! made of offset, size and hash (6 bytes each).

use crate::codec::{get_be, put_be};
use crate::error::Error;
use vstd::prelude::*;

verus! {

/// The version of the format.
pub const VERSION: u16 = 2;

/// Bytes in the data file's header.
pub const DAT_HEADER_SIZE: usize = 92;

/// Bytes in the key file's header, before it is padded to a block.
pub const KEY_HEADER_SIZE: usize = 104;

/// Bytes of a bucket before its entries.
pub const BUCKET_HEADER_SIZE: usize = 8;

/// Bytes of a bucket entry.
pub const ENTRY_SIZE: usize = 18;

/// Bytes of a spill record before its bucket.
pub const SPILL_HEADER_SIZE: usize = 8;

/// One more than the largest value of a 48-bit field.
pub const LIMIT48: u64 = 0x1_0000_0000_0000;

/// The size of a data file whose last record starts at the last 48-bit offset
/// and is as large as a 48-bit size can state.
pub const MAX_DAT_SIZE: u64 = 0x2_0000_0000_0004;

/// `count` zero bytes.
pub open spec fn zeros(count: nat) -> Seq<u8> {
    Seq::new(count, |i: int| 0u8)
}

/// The ASCII text "nudb.dat".
pub open spec fn dat_tag() -> Seq<u8> {
    seq![0x6eu8, 0x75u8, 0x64u8, 0x62u8, 0x2eu8, 0x64u8, 0x61u8, 0x74u8]
}

/// The ASCII text "nudb.key".
pub open spec fn key_tag() -> Seq<u8> {
    seq![0x6eu8, 0x75u8, 0x64u8, 0x62u8, 0x2eu8, 0x6bu8, 0x65u8, 0x79u8]
}

/// The field of `width` bytes at `at`.
pub open spec fn field(bytes: Seq<u8>, at: int, width: int) -> nat {
    crate::codec::be_value(bytes.subrange(at, at + width))
}

/// Appends `count` zero bytes.
pub(crate) fn put_zeros(buf: &mut Vec<u8>, count: usize)
    ensures
        final(buf)@ == old(buf)@ + zeros(count as nat),
{
    let mut done: usize = 0;
    while done < count
        invariant
            done <= count,
            buf@ == old(buf)@ + zeros(done as nat),
        decreases count - done,
    {
        buf.push(0);
        done = done + 1;
        assert(buf@ =~= old(buf)@ + zeros(done as nat));
    }
}

/// The header of the data file.
#[derive(Clone, Copy, Debug, PartialEq, Eq, Structural)]
pub struct DatHeader {
    pub version: u16,
    /// Identifies the pair of files.
    pub uid: u64,
    /// Identifies the application.
    pub appnum: u64,
    /// Bytes in a key.
    pub key_size: u16,
}

impl DatHeader {
    /// The header's bytes.
    pub open spec fn encoding(self) -> Seq<u8> {
        dat_tag() + crate::codec::be_bytes(self.version as nat, 2) + crate::codec::be_bytes(
            self.uid as nat,
            8,
        ) + crate::codec::be_bytes(self.appnum as nat, 8) + crate::codec::be_bytes(
            self.key_size as nat,
            2,
        ) + zeros(64)
    }

    /// The header's bytes.
    pub fn write_to(&self) -> (bytes: Vec<u8>)
        ensures
            bytes@ == self.encoding(),
            bytes@.len() == DAT_HEADER_SIZE,
    {
        let mut buf: Vec<u8> = vec![0x6eu8, 0x75u8, 0x64u8, 0x62u8, 0x2eu8, 0x64u8, 0x61u8, 0x74u8];
        assert(buf@ =~= dat_tag());
        put_be(&mut buf, self.version as u64, 2);
        put_be(&mut buf, self.uid, 8);
        put_be(&mut buf, self.appnum, 8);
        put_be(&mut buf, self.key_size as u64, 2);
        put_zeros(&mut buf, 64);
        proof {
            broadcast use crate::codec::lemma_be_bytes_len;

        }
        buf
    }
}

/// The header of the key file.
#[derive(Clone, Copy, Debug, PartialEq, Eq, Structural)]
pub struct KeyHeader {
    pub version: u16,
    /// Identifies the pair of files.
    pub uid: u64,
    /// Identifies the application.
    pub appnum: u64,
    /// Bytes in a key.
    pub key_size: u16,
    /// The seed of the key hashes.
    pub salt: u64,
    /// The fingerprint of the salt.
    pub pepper: u64,
    /// Bytes in a bucket's block.
    pub block_size: u16,
    /// The load at which a bucket is split, as a fraction of 65536.
    pub load_factor: u16,
    /// The number of buckets.
    pub bucket_count: u64,
    /// The number of keys.
    pub key_count: u64,
}

impl KeyHeader {
    /// The header's bytes, before they are padded to a block.
    pub open spec fn encoding(self) -> Seq<u8> {
        key_tag() + crate::codec::be_bytes(self.version as nat, 2) + crate::codec::be_bytes(
            self.uid as nat,
            8,
        ) + crate::codec::be_bytes(self.appnum as nat, 8) + crate::codec::be_bytes(
            self.key_size as nat,
            2,
        ) + crate::codec::be_bytes(self.salt as nat, 8) + crate::codec::be_bytes(
            self.pepper as nat,
            8,
        ) + crate::codec::be_bytes(self.block_size as nat, 2) + crate::codec::be_bytes(
            self.load_factor as nat,
            2,
        ) + crate::codec::be_bytes(self.bucket_count as nat, 8) + crate::codec::be_bytes(
            self.key_count as nat,
            8,
        ) + zeros(40)
    }

    /// The header as it stands in the file: padded with zeros to a block. A
    /// block smaller than the header is not padded.
    pub open spec fn block(self) -> Seq<u8> {
        self.encoding() + zeros(
            if self.block_size > KEY_HEADER_SIZE {
                (self.block_size - KEY_HEADER_SIZE) as nat
            } else {
                0
            },
        )
    }

    /// The header that a key file starts with, or why it starts with none.
    pub open spec fn decoding(bytes: Seq<u8>) -> Result<KeyHeader, Error> {
        if bytes.len() < KEY_HEADER_SIZE {
            Err(Error::UnexpectedEof)
        } else if bytes.subrange(0, 8) != key_tag() {
            Err(Error::NotKeyFile)
        } else if field(bytes, 8, 2) != VERSION {
            Err(Error::WrongVersion)
        } else {
            Ok(
                KeyHeader {
                    version: field(bytes, 8, 2) as u16,
                    uid: field(bytes, 10, 8) as u64,
                    appnum: field(bytes, 18, 8) as u64,
                    key_size: field(bytes, 26, 2) as u16,
                    salt: field(bytes, 28, 8) as u64,
                    pepper: field(bytes, 36, 8) as u64,
                    block_size: field(bytes, 44, 2) as u16,
                    load_factor: field(bytes, 46, 2) as u16,
                    bucket_count: field(bytes, 48, 8) as u64,
                    key_count: field(bytes, 56, 8) as u64,
                },
            )
        }
    }

    /// How many entries a bucket's block holds; none where the block is
    /// smaller than the header.
    pub open spec fn capacity(self) -> int {
        if self.block_size < KEY_HEADER_SIZE {
            0
        } else {
            (self.block_size - BUCKET_HEADER_SIZE) / (ENTRY_SIZE as int)
        }
    }

    /// The header as it stands in the file.
    pub fn write_to(&self) -> (bytes: Vec<u8>)
        ensures
            bytes@ == self.block(),
            bytes@.len() == if self.block_size > KEY_HEADER_SIZE {
                self.block_size as int
            } else {
                KEY_HEADER_SIZE as int
            },
    {
        let mut buf: Vec<u8> = vec![0x6eu8, 0x75u8, 0x64u8, 0x62u8, 0x2eu8, 0x6bu8, 0x65u8, 0x79u8];
        assert(buf@ =~= key_tag());
        put_be(&mut buf, self.version as u64, 2);
        put_be(&mut buf, self.uid, 8);
        put_be(&mut buf, self.appnum, 8);
        put_be(&mut buf, self.key_size as u64, 2);
        put_be(&mut buf, self.salt, 8);
        put_be(&mut buf, self.pepper, 8);
        put_be(&mut buf, self.block_size as u64, 2);
        put_be(&mut buf, self.load_factor as u64, 2);
        put_be(&mut buf, self.bucket_count, 8);
        put_be(&mut buf, self.key_count, 8);
        put_zeros(&mut buf, 40);
        proof {
            broadcast use crate::codec::lemma_be_bytes_len;

        }
        if self.block_size as usize > KEY_HEADER_SIZE {
            put_zeros(&mut buf, self.block_size as usize - KEY_HEADER_SIZE);
        }
        assert(buf@ =~= self.block());
        buf
    }

    /// Reads the header that a key file starts with.
    pub fn read_from(bytes: &[u8]) -> (header: Result<KeyHeader, Error>)
        ensures
            header == KeyHeader::decoding(bytes@),
    {
        if bytes.len() < KEY_HEADER_SIZE {
            return Err(Error::UnexpectedEof);
        }
        proof {
            crate::codec::lemma_radix_values();
        }
        let tagged: bool = bytes[0] == 0x6e && bytes[1] == 0x75 && bytes[2] == 0x64 && bytes[3]
            == 0x62 && bytes[4] == 0x2e && bytes[5] == 0x6b && bytes[6] == 0x65 && bytes[7] == 0x79;
        if !tagged {
            proof {
                let tag = bytes@.subrange(0, 8);
                assert(forall|i: int| 0 <= i < 8 ==> tag[i] == bytes@[i]);
            }
            return Err(Error::NotKeyFile);
        }
        assert(bytes@.subrange(0, 8) =~= key_tag());
        let version: u64 = get_be(bytes, 8, 2);
        if version != VERSION as u64 {
            return Err(Error::WrongVersion);
        }
        Ok(
            KeyHeader {
                version: version as u16,
                uid: get_be(bytes, 10, 8),
                appnum: get_be(bytes, 18, 8),
                key_size: get_be(bytes, 26, 2) as u16,
                salt: get_be(bytes, 28, 8),
                pepper: get_be(bytes, 36, 8),
                block_size: get_be(bytes, 44, 2) as u16,
                load_factor: get_be(bytes, 46, 2) as u16,
                bucket_count: get_be(bytes, 48, 8),
                key_count: get_be(bytes, 56, 8),
            },
        )
    }

    /// How many entries a bucket's block holds.
    pub fn bucket_capacity(&self) -> (capacity: usize)
        ensures
            capacity == self.capacity(),
            capacity <= 3640,
    {
        if (self.block_size as usize) < KEY_HEADER_SIZE {
            0
        } else {
            (self.block_size as usize - BUCKET_HEADER_SIZE) / ENTRY_SIZE
        }
    }

    /// Where a bucket's block starts in the key file.
    pub fn bucket_offset(&self, index: u64) -> (offset: u64)
        requires
            index < u64::MAX,
            (index + 1) * self.block_size <= u64::MAX,
        ensures
            offset == (index + 1) * self.block_size,
    {
        (index + 1) * self.block_size as u64
    }
}

/// A key file's header is read back as it was written, whatever follows it.
pub proof fn law_key_header_read_back(header: KeyHeader, rest: Seq<u8>)
    requires
        header.version == VERSION,
    ensures
        KeyHeader::decoding(header.encoding() + rest) == Ok::<KeyHeader, Error>(header),
{
    broadcast use crate::codec::lemma_be_bytes_len;

    crate::codec::lemma_radix_values();
    let bytes = header.encoding() + rest;
    assert(bytes.subrange(0, 8) =~= key_tag());
    assert(bytes.subrange(8, 10) =~= crate::codec::be_bytes(header.version as nat, 2));
    assert(bytes.subrange(10, 18) =~= crate::codec::be_bytes(header.uid as nat, 8));
    assert(bytes.subrange(18, 26) =~= crate::codec::be_bytes(header.appnum as nat, 8));
    assert(bytes.subrange(26, 28) =~= crate::codec::be_bytes(header.key_size as nat, 2));
    assert(bytes.subrange(28, 36) =~= crate::codec::be_bytes(header.salt as nat, 8));
    assert(bytes.subrange(36, 44) =~= crate::codec::be_bytes(header.pepper as nat, 8));
    assert(bytes.subrange(44, 46) =~= crate::codec::be_bytes(header.block_size as nat, 2));
    assert(bytes.subrange(46, 48) =~= crate::codec::be_bytes(header.load_factor as nat, 2));
    assert(bytes.subrange(48, 56) =~= crate::codec::be_bytes(header.bucket_count as nat, 8));
    assert(bytes.subrange(56, 64) =~= crate::codec::be_bytes(header.key_count as nat, 8));
    crate::codec::law_integer_read_back(header.version as nat, 2);
    crate::codec::law_integer_read_back(header.uid as nat, 8);
    crate::codec::law_integer_read_back(header.appnum as nat, 8);
    crate::codec::law_integer_read_back(header.key_size as nat, 2);
    crate::codec::law_integer_read_back(header.salt as nat, 8);
    crate::codec::law_integer_read_back(header.pepper as nat, 8);
    crate::codec::law_integer_read_back(header.block_size as nat, 2);
    crate::codec::law_integer_read_back(header.load_factor as nat, 2);
    crate::codec::law_integer_read_back(header.bucket_count as nat, 8);
    crate::codec::law_integer_read_back(header.key_count as nat, 8);
}

} // verus!

//! What the store promises, in plain numbers and bytes.
//!
//! These laws fix where each number stands in the files and what it is worth,
//! without the words that the operations' own contracts use for it.

use crate::bucket::BucketView;
use crate::error::Error;
use crate::format::{DatHeader, KeyHeader};
use crate::table::{StoreOptions, Table};
use vstd::prelude::*;

verus! {

/// The number that bytes stand for, the most significant first.
pub open spec fn number(bytes: Seq<u8>) -> int
    decreases bytes.len(),
{
    if bytes.len() == 0 {
        0
    } else {
        number(bytes.drop_last()) * 256 + bytes.last()
    }
}

/// The number that `width` bytes from `at` on stand for.
pub open spec fn number_at(bytes: Seq<u8>, at: int, width: int) -> int {
    number(bytes.subrange(at, at + width))
}

proof fn lemma_number(bytes: Seq<u8>)
    ensures
        number(bytes) == crate::codec::be_value(bytes),
    decreases bytes.len(),
{
    if bytes.len() > 0 {
        lemma_number(bytes.drop_last());
    }
}

/// The first bytes of a sum are those of its first part.
proof fn lemma_field(bytes: Seq<u8>, at: int, width: nat, value: nat)
    requires
        0 <= at,
        at + width <= bytes.len(),
        bytes.subrange(at, at + width) == crate::codec::be_bytes(value, width),
        value < crate::codec::radix(width),
    ensures
        number_at(bytes, at, width as int) == value,
{
    lemma_number(bytes.subrange(at, at + width));
    crate::codec::law_integer_read_back(value, width);
}

/// A number is written in the bytes that stand for it, in either order, if it
/// fits in them.
pub proof fn law_digits(value: nat, width: nat)
    requires
        value < vstd::arithmetic::power::pow(256, width),
    ensures
        crate::codec::be_bytes(value, width).len() == width,
        number(crate::codec::be_bytes(value, width)) == value,
        crate::codec::le_bytes(value, width) == crate::codec::be_bytes(value, width).reverse(),
{
    broadcast use crate::codec::lemma_be_bytes_len;

    lemma_radix(width);
    lemma_number(crate::codec::be_bytes(value, width));
    crate::codec::law_integer_read_back(value, width);
    lemma_reversed(value, width);
}

/// A number is read from the bytes that stand for it.
pub proof fn law_digits_read(bytes: Seq<u8>)
    ensures
        crate::codec::be_value(bytes) == number(bytes),
{
    lemma_number(bytes);
}

proof fn lemma_radix(width: nat)
    ensures
        crate::codec::radix(width) == vstd::arithmetic::power::pow(256, width),
    decreases width,
{
    reveal(vstd::arithmetic::power::pow);
    if width > 0 {
        lemma_radix((width - 1) as nat);
    }
}

proof fn lemma_reversed(value: nat, width: nat)
    ensures
        crate::codec::le_bytes(value, width) == crate::codec::be_bytes(value, width).reverse(),
    decreases width,
{
    if width > 0 {
        let rest = crate::codec::be_bytes(value / 256, (width - 1) as nat);
        lemma_reversed(value / 256, (width - 1) as nat);
        assert(crate::codec::le_bytes(value, width) =~= rest.push((value % 256) as u8).reverse());
    } else {
        assert(crate::codec::le_bytes(value, width) =~= crate::codec::be_bytes(
            value,
            width,
        ).reverse());
    }
}

/// Where each field of the data file's header stands.
pub proof fn law_dat_header_bytes(header: DatHeader)
    ensures
        ({
            let bytes = header.encoding();
            &&& bytes.len() == 92
            &&& bytes.subrange(0, 8) == seq![110u8, 117, 100, 98, 46, 100, 97, 116]
            &&& number_at(bytes, 8, 2) == header.version
            &&& number_at(bytes, 10, 8) == header.uid
            &&& number_at(bytes, 18, 8) == header.appnum
            &&& number_at(bytes, 26, 2) == header.key_size
            &&& forall|x: int| 28 <= x < 92 ==> bytes[x] == 0
        }),
{
    broadcast use crate::codec::lemma_be_bytes_len;

    let bytes = header.encoding();
    crate::codec::lemma_radix_values();
    assert(bytes.subrange(0, 8) =~= seq![110u8, 117, 100, 98, 46, 100, 97, 116]);
    assert(bytes.subrange(8, 10) =~= crate::codec::be_bytes(header.version as nat, 2));
    assert(bytes.subrange(10, 18) =~= crate::codec::be_bytes(header.uid as nat, 8));
    assert(bytes.subrange(18, 26) =~= crate::codec::be_bytes(header.appnum as nat, 8));
    assert(bytes.subrange(26, 28) =~= crate::codec::be_bytes(header.key_size as nat, 2));
    lemma_field(bytes, 8, 2, header.version as nat);
    lemma_field(bytes, 10, 8, header.uid as nat);
    lemma_field(bytes, 18, 8, header.appnum as nat);
    lemma_field(bytes, 26, 2, header.key_size as nat);
}

/// The bytes hold the fields of the key file's header, each at its place.
pub open spec fn states(bytes: Seq<u8>, header: KeyHeader) -> bool {
    &&& bytes.subrange(0, 8) == seq![110u8, 117, 100, 98, 46, 107, 101, 121]
    &&& number_at(bytes, 8, 2) == header.version
    &&& number_at(bytes, 10, 8) == header.uid
    &&& number_at(bytes, 18, 8) == header.appnum
    &&& number_at(bytes, 26, 2) == header.key_size
    &&& number_at(bytes, 28, 8) == header.salt
    &&& number_at(bytes, 36, 8) == header.pepper
    &&& number_at(bytes, 44, 2) == header.block_size
    &&& number_at(bytes, 46, 2) == header.load_factor
    &&& number_at(bytes, 48, 8) == header.bucket_count
    &&& number_at(bytes, 56, 8) == header.key_count
}

/// Where each field of the key file's header stands, whatever follows it.
pub proof fn law_key_header_bytes(header: KeyHeader, rest: Seq<u8>)
    ensures
        states(header.block() + rest, header),
        header.block().len() == if header.block_size > 104 {
            header.block_size as int
        } else {
            104
        },
        forall|x: int| 64 <= x < header.block().len() ==> header.block()[x] == 0,
{
    broadcast use crate::codec::lemma_be_bytes_len;

    let bytes = header.block() + rest;
    crate::codec::lemma_radix_values();
    assert(bytes.subrange(0, 8) =~= seq![110u8, 117, 100, 98, 46, 107, 101, 121]);
    assert(bytes.subrange(8, 10) =~= crate::codec::be_bytes(header.version as nat, 2));
    assert(bytes.subrange(10, 18) =~= crate::codec::be_bytes(header.uid as nat, 8));
    assert(bytes.subrange(18, 26) =~= crate::codec::be_bytes(header.appnum as nat, 8));
    assert(bytes.subrange(26, 28) =~= crate::codec::be_bytes(header.key_size as nat, 2));
    assert(bytes.subrange(28, 36) =~= crate::codec::be_bytes(header.salt as nat, 8));
    assert(bytes.subrange(36, 44) =~= crate::codec::be_bytes(header.pepper as nat, 8));
    assert(bytes.subrange(44, 46) =~= crate::codec::be_bytes(header.block_size as nat, 2));
    assert(bytes.subrange(46, 48) =~= crate::codec::be_bytes(header.load_factor as nat, 2));
    assert(bytes.subrange(48, 56) =~= crate::codec::be_bytes(header.bucket_count as nat, 8));
    assert(bytes.subrange(56, 64) =~= crate::codec::be_bytes(header.key_count as nat, 8));
    lemma_field(bytes, 8, 2, header.version as nat);
    lemma_field(bytes, 10, 8, header.uid as nat);
    lemma_field(bytes, 18, 8, header.appnum as nat);
    lemma_field(bytes, 26, 2, header.key_size as nat);
    lemma_field(bytes, 28, 8, header.salt as nat);
    lemma_field(bytes, 36, 8, header.pepper as nat);
    lemma_field(bytes, 44, 2, header.block_size as nat);
    lemma_field(bytes, 46, 2, header.load_factor as nat);
    lemma_field(bytes, 48, 8, header.bucket_count as nat);
    lemma_field(bytes, 56, 8, header.key_count as nat);
}

/// A key file is opened exactly if it is long enough for a header, starts with
/// the type tag and is of version two; the fields read are those that stand
/// there. Else the first of these that fails is what is wrong with it.
pub proof fn law_key_header_read(bytes: Seq<u8>)
    ensures
        bytes.len() < 104 ==> KeyHeader::decoding(bytes) == Err::<KeyHeader, Error>(
            Error::UnexpectedEof,
        ),
        bytes.len() >= 104 && bytes.subrange(0, 8) != seq![
            110u8,
            117,
            100,
            98,
            46,
            107,
            101,
            121,
        ] ==> KeyHeader::decoding(bytes) == Err::<KeyHeader, Error>(Error::NotKeyFile),
        bytes.len() >= 104 && bytes.subrange(0, 8) == seq![
            110u8,
            117,
            100,
            98,
            46,
            107,
            101,
            121,
        ] && number_at(bytes, 8, 2) != 2 ==> KeyHeader::decoding(bytes) == Err::<KeyHeader, Error>(
            Error::WrongVersion,
        ),
        bytes.len() >= 104 && bytes.subrange(0, 8) == seq![
            110u8,
            117,
            100,
            98,
            46,
            107,
            101,
            121,
        ] && number_at(bytes, 8, 2) == 2 ==> (KeyHeader::decoding(bytes) matches Ok(header)
            && states(bytes, header)),
{
    let tag = seq![110u8, 117, 100, 98, 46, 107, 101, 121];
    assert(tag =~= crate::format::key_tag());
    crate::codec::lemma_radix_values();
    lemma_number(bytes.subrange(8, 10));
    if bytes.len() >= 104 {
        lemma_read(bytes, 8, 2);
        lemma_read(bytes, 10, 8);
        lemma_read(bytes, 18, 8);
        lemma_read(bytes, 26, 2);
        lemma_read(bytes, 28, 8);
        lemma_read(bytes, 36, 8);
        lemma_read(bytes, 44, 2);
        lemma_read(bytes, 46, 2);
        lemma_read(bytes, 48, 8);
        lemma_read(bytes, 56, 8);
    }
}

proof fn lemma_read(bytes: Seq<u8>, at: int, width: int)
    requires
        0 <= at,
        0 <= width,
        at + width <= bytes.len(),
    ensures
        crate::format::field(bytes, at, width) == number_at(bytes, at, width),
        0 <= number_at(bytes, at, width) < crate::codec::radix(width as nat),
{
    lemma_number(bytes.subrange(at, at + width));
    crate::codec::lemma_be_value_bound(bytes.subrange(at, at + width));
}

/// The files of a new store: each states, at its place, what it was created
/// with, and they state the same of it. `digits` are the bytes of the salt, the
/// least significant first.
pub proof fn law_new_files(options: StoreOptions, uid: u64, salt: u64, digits: Seq<u8>)
    requires
        digits.len() == 8,
        number(digits.reverse()) == salt,
    ensures
        ({
            let t = Table::fresh(options, uid, salt);
            let dat = t.new_dat();
            let key = t.new_key();
            &&& dat.len() == 92
            &&& key.len() == options.block_size + if options.block_size > 104 {
                options.block_size as int
            } else {
                104
            }
            &&& dat.subrange(0, 8) == seq![110u8, 117, 100, 98, 46, 100, 97, 116]
            &&& number_at(dat, 8, 2) == 2
            &&& number_at(dat, 10, 8) == uid
            &&& number_at(dat, 18, 8) == options.appnum
            &&& number_at(dat, 26, 2) == options.key_size
            &&& forall|x: int| 28 <= x < 92 ==> dat[x] == 0
            &&& key.subrange(0, 8) == seq![110u8, 117, 100, 98, 46, 107, 101, 121]
            &&& number_at(key, 8, 2) == 2
            &&& number_at(key, 10, 8) == uid
            &&& number_at(key, 18, 8) == options.appnum
            &&& number_at(key, 26, 2) == options.key_size
            &&& number_at(key, 28, 8) == salt
            &&& number_at(key, 36, 8) == crate::hash::xxh64_value(digits, 0)
            &&& number_at(key, 44, 2) == options.block_size
            &&& number_at(key, 46, 2) == options.load_factor
            &&& number_at(key, 48, 8) == 1
            &&& number_at(key, 56, 8) == 0
            &&& forall|x: int| 64 <= x < key.len() ==> key[x] == 0
            &&& t.header.block_size == options.block_size
            &&& t.header.load_factor == options.load_factor
            &&& t.header.appnum == options.appnum
            &&& t.header.key_size == options.key_size
            &&& t.header.uid == uid
            &&& t.header.salt == salt
            &&& t.header.bucket_count == 1
            &&& t.header.key_count == 0
        }),
{
    let t = Table::fresh(options, uid, salt);
    let dat_header = DatHeader {
        version: t.header.version,
        uid: t.header.uid,
        appnum: t.header.appnum,
        key_size: t.header.key_size,
    };
    law_dat_header_bytes(dat_header);
    law_key_header_bytes(t.header, crate::format::zeros(t.header.block_size as nat));
    law_pepper(salt, digits);
}

/// The pepper is the hash, with the seed zero, of the salt's bytes, the least
/// significant first.
pub proof fn law_pepper(salt: u64, digits: Seq<u8>)
    requires
        digits.len() == 8,
        number(digits.reverse()) == salt,
    ensures
        crate::hash::pepper_value(salt) == crate::hash::xxh64_value(digits, 0),
{
    let high = digits.reverse();
    lemma_number(high);
    crate::codec::law_integer_bytes_unique(high);
    lemma_reversed(salt as nat, 8);
    assert(high.reverse() =~= digits);
}

/// A bucket entry holds a hash without its lowest 16 bits.
pub proof fn law_hash_reduced(hash: u64)
    ensures
        crate::hash::upper48(hash) * 0x1_0000 + hash % 0x1_0000 == hash,
        crate::hash::upper48(hash) < 0x1_0000_0000_0000,
{
}

/// A block of at least 104 bytes holds as many entries of 18 bytes as fit after
/// the first 8; a smaller one holds none.
pub proof fn law_capacity(header: KeyHeader)
    ensures
        header.block_size < 104 ==> header.capacity() == 0,
        header.block_size >= 104 ==> 8 + 18 * header.capacity() <= header.block_size < 8 + 18 * (
        header.capacity() + 1),
{
}

/// Where each number of a bucket stands in its block: how many entries there
/// are, where its spill record is, then the entries, then zeros.
pub proof fn law_bucket_bytes(bucket: BucketView, block_size: int, i: int)
    requires
        bucket.fits(block_size),
    ensures
        ({
            let bytes = bucket.encoding(block_size);
            &&& bytes.len() == block_size
            &&& number_at(bytes, 0, 2) == bucket.entries.len()
            &&& number_at(bytes, 2, 6) == bucket.spill
            &&& 0 <= i < bucket.entries.len() ==> {
                &&& number_at(bytes, 8 + 18 * i, 6) == bucket.entries[i].offset
                &&& number_at(bytes, 14 + 18 * i, 6) == bucket.entries[i].size
                &&& number_at(bytes, 20 + 18 * i, 6) == bucket.entries[i].hash
            }
            &&& 8 + 18 * bucket.entries.len() <= i < block_size ==> bytes[i] == 0
        }),
{
    broadcast use crate::codec::lemma_be_bytes_len;

    let bytes = bucket.encoding(block_size);
    crate::bucket::law_bucket_read_back(bucket, block_size);
    crate::bucket::lemma_entries_encoding_len(bucket.entries);
    law_bucket_read(bytes, i);
}

/// A block holds a bucket exactly if it has room for the entries that it
/// counts; the numbers read are those that stand there.
pub proof fn law_bucket_read(bytes: Seq<u8>, i: int)
    requires
        bytes.len() <= 0xffff,
    ensures
        BucketView::decoding(bytes) is Some <==> bytes.len() >= 8 && 8 + 18 * number_at(bytes, 0, 2)
            <= bytes.len(),
        BucketView::decoding(bytes) matches Some(bucket) ==> {
            &&& bucket.entries.len() == number_at(bytes, 0, 2)
            &&& bucket.spill == number_at(bytes, 2, 6)
            &&& 0 <= i < bucket.entries.len() ==> {
                &&& bucket.entries[i].offset == number_at(bytes, 8 + 18 * i, 6)
                &&& bucket.entries[i].size == number_at(bytes, 14 + 18 * i, 6)
                &&& bucket.entries[i].hash == number_at(bytes, 20 + 18 * i, 6)
            }
        },
{
    crate::codec::lemma_radix_values();
    if bytes.len() >= 8 {
        lemma_read(bytes, 0, 2);
        lemma_read(bytes, 2, 6);
        if 0 <= i < number_at(bytes, 0, 2) && 8 + 18 * number_at(bytes, 0, 2) <= bytes.len() {
            lemma_read(bytes, 8 + 18 * i, 6);
            lemma_read(bytes, 14 + 18 * i, 6);
            lemma_read(bytes, 20 + 18 * i, 6);
        }
    }
}

/// The bytes of a data record: a size of six bytes, the key, the value. The
/// size is that of the key and the value together.
pub proof fn law_record_bytes(key: Seq<u8>, value: Seq<u8>)
    requires
        key.len() + value.len() < 0x1_0000_0000_0000,
    ensures
        ({
            let bytes = crate::write::data_record(key, value);
            &&& bytes.len() == 6 + key.len() + value.len()
            &&& number_at(bytes, 0, 6) == key.len() + value.len()
            &&& bytes.subrange(6, (6 + key.len()) as int) == key
            &&& bytes.subrange((6 + key.len()) as int, bytes.len() as int) == value
        }),
{
    broadcast use crate::codec::lemma_be_bytes_len;

    let bytes = crate::write::data_record(key, value);
    crate::codec::lemma_radix_values();
    assert(bytes.subrange(0, 6) =~= crate::codec::be_bytes(key.len() + value.len(), 6));
    lemma_field(bytes, 0, 6, key.len() + value.len());
    assert(bytes.subrange(6, (6 + key.len()) as int) =~= key);
    assert(bytes.subrange((6 + key.len()) as int, bytes.len() as int) =~= value);
}

/// The bytes of a spill record: six zeros, the block size in two bytes, the
/// bucket's block.
pub proof fn law_spill_bytes(bucket: BucketView, block_size: int)
    requires
        bucket.fits(block_size),
    ensures
        ({
            let bytes = crate::write::spill_record(bucket, block_size);
            &&& bytes.len() == 8 + block_size
            &&& number_at(bytes, 0, 6) == 0
            &&& number_at(bytes, 6, 2) == block_size
            &&& bytes.subrange(8, 8 + block_size) == bucket.encoding(block_size)
        }),
{
    broadcast use crate::codec::lemma_be_bytes_len;

    let bytes = crate::write::spill_record(bucket, block_size);
    crate::bucket::law_bucket_read_back(bucket, block_size);
    crate::codec::lemma_radix_values();
    assert(bytes.subrange(0, 6) =~= crate::format::zeros(6));
    assert(number_at(bytes, 0, 6) == 0) by {
        reveal_with_fuel(number, 7);
    }
    assert(bytes.subrange(6, 8) =~= crate::codec::be_bytes(block_size as nat, 2));
    lemma_field(bytes, 6, 2, block_size as nat);
    assert(bytes.subrange(8, 8 + block_size) =~= bucket.encoding(block_size));
}

/// The level and the split position of a bucket count: the power of two at or
/// below it, and how far it is past that.
pub proof fn law_level_and_next(bucket_count: u64, level: u32)
    requires
        vstd::arithmetic::power2::pow2(level as nat) <= bucket_count,
        bucket_count < vstd::arithmetic::power2::pow2((level + 1) as nat),
    ensures
        crate::linear::state_of(bucket_count).0 == level,
        crate::linear::state_of(bucket_count).1 == bucket_count
            - vstd::arithmetic::power2::pow2(level as nat),
{
    vstd::arithmetic::power2::lemma_pow2_unfold((level + 1) as nat);
    let next = (bucket_count - vstd::arithmetic::power2::pow2(level as nat)) as u64;
    crate::linear::lemma_state_of(level, next, bucket_count);
}

/// The bucket of a hash: its remainder by twice the power of two at or below
/// the bucket count, if there is such a bucket, or else by that power.
pub proof fn law_bucket_of_hash(level: u32, bucket_count: u64, hash: u64)
    requires
        level < 63,
        vstd::arithmetic::power2::pow2(level as nat) <= bucket_count,
        bucket_count < vstd::arithmetic::power2::pow2((level + 1) as nat),
    ensures
        ({
            let m = vstd::arithmetic::power2::pow2(level as nat) as int;
            let next = (bucket_count - m) as u64;
            crate::linear::index_of(level, next, hash) == if hash as int % (2 * m) < bucket_count {
                hash as int % (2 * m)
            } else {
                hash as int % m
            }
        }),
{
    let m = vstd::arithmetic::power2::pow2(level as nat) as int;
    vstd::arithmetic::power2::lemma_pow2_pos(level as nat);
    vstd::arithmetic::power2::lemma_pow2_unfold((level + 1) as nat);
    crate::linear::lemma_doubled_modulus(hash as int, m);
    vstd::arithmetic::div_mod::lemma_mod_bound(hash as int, m);
    vstd::arithmetic::div_mod::lemma_mod_bound(hash as int, 2 * m);
}

/// A key file with a header is opened with the numbers that stand in it, and
/// with the level of the power of two at or below its bucket count; unless the
/// count is beyond the greatest power of two that a count can be.
pub proof fn law_opened(key: Seq<u8>, level: u32)
    requires
        key.len() >= 104,
        key.subrange(0, 8) == seq![110u8, 117, 100, 98, 46, 107, 101, 121],
        number_at(key, 8, 2) == 2,
        vstd::arithmetic::power2::pow2(level as nat) <= number_at(key, 48, 8),
        number_at(key, 48, 8) < vstd::arithmetic::power2::pow2((level + 1) as nat),
    ensures
        number_at(key, 48, 8) > 0x8000_0000_0000_0000 ==> Table::opened(key) == Err::<Table, Error>(
            Error::InvalidHeader,
        ),
        number_at(key, 48, 8) <= 0x8000_0000_0000_0000 ==> (Table::opened(key) matches Ok(t)
            && states(key, t.header) && t.level == level && t.next == number_at(key, 48, 8)
            - vstd::arithmetic::power2::pow2(level as nat)),
{
    law_key_header_read(key);
    law_level_and_next(KeyHeader::decoding(key)->Ok_0.bucket_count, level);
}

/// A key file whose header counts no bucket is opened as if it had one.
pub proof fn law_opened_without_buckets(key: Seq<u8>)
    requires
        key.len() >= 104,
        key.subrange(0, 8) == seq![110u8, 117, 100, 98, 46, 107, 101, 121],
        number_at(key, 8, 2) == 2,
        number_at(key, 48, 8) == 0,
    ensures
        Table::opened(key) matches Ok(t) && states(key, t.header) && t.level == 0 && t.next == 0,
{
    law_key_header_read(key);
}

/// What a file holds, byte for byte, after bytes have been written at `at`.
pub proof fn law_bytes_written(file: Seq<u8>, at: int, bytes: Seq<u8>)
    requires
        0 <= at,
    ensures
        ({
            let after = crate::effects::spliced(file, at, bytes);
            &&& after.len() >= file.len() && after.len() >= at + bytes.len()
            &&& after.len() == file.len() || after.len() == at + bytes.len()
            &&& after.subrange(at, at + bytes.len()) == bytes
            &&& forall|x: int|
                0 <= x < file.len() && !(at <= x < at + bytes.len()) ==> after[x] == file[x]
            &&& forall|x: int| file.len() <= x < at ==> after[x] == 0
        }),
{
    let after = crate::effects::spliced(file, at, bytes);
    assert(after.subrange(at, at + bytes.len()) =~= bytes);
}

} // verus!

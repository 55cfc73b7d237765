//! What the writes of each operation do to well formed files.

use crate::bucket::BucketEntry;
use crate::format::{KeyHeader, KEY_HEADER_SIZE};
use crate::model::Disk;
use crate::table::Table;
use crate::walk::FileKind;
use crate::write::WriteView;
use vstd::prelude::*;

verus! {

/// A file after bytes have been written at `at`, over what is there or past
/// its end. What is left out between its end and `at` is zeros.
pub open spec fn spliced(file: Seq<u8>, at: int, bytes: Seq<u8>) -> Seq<u8> {
    let len = if at + bytes.len() > file.len() {
        at + bytes.len()
    } else {
        file.len() as int
    };
    Seq::new(
        len as nat,
        |x: int|
            if at <= x < at + bytes.len() {
                bytes[x - at]
            } else if x < file.len() {
                file[x]
            } else {
                0
            },
    )
}

/// The files after a write.
pub open spec fn written(d: Disk, write: WriteView) -> Disk {
    match write.file {
        FileKind::Dat => Disk { dat: spliced(d.dat, write.offset as int, write.bytes), ..d },
        FileKind::Key => Disk { key: spliced(d.key, write.offset as int, write.bytes), ..d },
    }
}

/// The files after writes, in their order.
pub open spec fn all_written(d: Disk, writes: Seq<WriteView>) -> Disk
    decreases writes.len(),
{
    if writes.len() == 0 {
        d
    } else {
        written(all_written(d, writes.drop_last()), writes.last())
    }
}

pub proof fn lemma_two_written(d: Disk, writes: Seq<WriteView>)
    requires
        writes.len() == 2,
    ensures
        all_written(d, writes) == written(written(d, writes[0]), writes[1]),
{
    reveal_with_fuel(all_written, 3);
    assert(writes.drop_last().drop_last() =~= Seq::empty());
}

pub proof fn lemma_three_written(d: Disk, writes: Seq<WriteView>)
    requires
        writes.len() == 3,
    ensures
        all_written(d, writes) == written(written(written(d, writes[0]), writes[1]), writes[2]),
{
    reveal_with_fuel(all_written, 4);
    assert(writes.drop_last().drop_last().drop_last() =~= Seq::empty());
}

/// The header fills a block.
pub proof fn lemma_header_block_len(header: KeyHeader)
    requires
        header.block_size >= KEY_HEADER_SIZE,
    ensures
        header.block().len() == header.block_size,
        header.encoding().len() == KEY_HEADER_SIZE,
{
    broadcast use crate::codec::lemma_be_bytes_len;

}

/// The block of bucket `i` in a key file of blocks of `bs` bytes.
pub open spec fn block_at(key: Seq<u8>, bs: int, i: int) -> Seq<u8> {
    key.subrange((i + 1) * bs, (i + 2) * bs)
}

pub proof fn lemma_block_bounds(bs: int, i: int, j: int)
    requires
        bs >= 0,
        0 <= i < j,
    ensures
        bs <= (i + 1) * bs,
        (i + 2) * bs == (i + 1) * bs + bs,
        (i + 2) * bs <= (j + 1) * bs,
        (j + 2) * bs == (j + 1) * bs + bs,
{
    assert(bs <= (i + 1) * bs && (i + 2) * bs == (i + 1) * bs + bs && (i + 2) * bs <= (j + 1) * bs
        && (j + 2) * bs == (j + 1) * bs + bs) by (nonlinear_arith)
        requires
            bs >= 0,
            0 <= i < j,
    ;
}

/// Writing a bucket's block changes that block only; the block after the last
/// one is added.
pub proof fn lemma_block_spliced(key: Seq<u8>, bs: int, count: int, i: int, bytes: Seq<u8>)
    requires
        bs >= 0,
        0 <= i <= count,
        key.len() == (count + 1) * bs,
        bytes.len() == bs,
    ensures
        ({
            let key2 = spliced(key, (i + 1) * bs, bytes);
            &&& key2.len() == if i == count {
                (count + 2) * bs
            } else {
                (count + 1) * bs
            }
            &&& block_at(key2, bs, i) == bytes
            &&& key2.subrange(0, bs) == key.subrange(0, bs)
            &&& forall|j: int|
                0 <= j < count && j != i ==> #[trigger] block_at(key2, bs, j) == block_at(
                    key,
                    bs,
                    j,
                )
        }),
{
    let key2 = spliced(key, (i + 1) * bs, bytes);
    lemma_block_bounds(bs, i, count + 1);
    if i < count {
        lemma_block_bounds(bs, i, count);
    }
    assert(block_at(key2, bs, i) =~= bytes);
    assert(key2.subrange(0, bs) =~= key.subrange(0, bs));
    assert forall|j: int| 0 <= j < count && j != i implies #[trigger] block_at(key2, bs, j)
        == block_at(key, bs, j) by {
        lemma_block_bounds(bs, j, count);
        if i < j {
            lemma_block_bounds(bs, i, j);
        } else {
            lemma_block_bounds(bs, j, i);
        }
        assert(block_at(key2, bs, j) =~= block_at(key, bs, j));
    }
}

/// Writing the header changes no bucket's block.
pub proof fn lemma_header_spliced(key: Seq<u8>, bs: int, count: int, bytes: Seq<u8>)
    requires
        bs >= 0,
        0 <= count,
        key.len() == (count + 1) * bs,
        bytes.len() == bs,
    ensures
        ({
            let key2 = spliced(key, 0, bytes);
            &&& key2.len() == key.len()
            &&& key2.subrange(0, bs) == bytes
            &&& forall|j: int|
                0 <= j < count ==> #[trigger] block_at(key2, bs, j) == block_at(key, bs, j)
        }),
{
    let key2 = spliced(key, 0, bytes);
    assert(bs <= (count + 1) * bs) by (nonlinear_arith)
        requires
            bs >= 0,
            0 <= count,
    ;
    assert(key2.subrange(0, bs) =~= bytes);
    assert forall|j: int| 0 <= j < count implies #[trigger] block_at(key2, bs, j) == block_at(
        key,
        bs,
        j,
    ) by {
        lemma_block_bounds(bs, j, count);
        assert(block_at(key2, bs, j) =~= block_at(key, bs, j));
    }
}

/// The files store one binding more, less or other when the listed entries
/// change by the entry of one key.
pub proof fn lemma_contents_changed(
    t: Table,
    d: Disk,
    t2: Table,
    d2: Disk,
    touched: Set<int>,
    a: u64,
    len: int,
    key: Seq<u8>,
    dropped: Option<BucketEntry>,
    added: Option<BucketEntry>,
)
    requires
        t.well_formed(d),
        crate::evolve::rebuilt(t, d, t2, d2, touched, a, len),
        forall|x: BucketEntry| #[trigger]
            t2.listed(d2, x) <==> t.listed(d, x) && dropped != Some(x) || added == Some(x),
        dropped matches Some(x) ==> t.listed(d, x) && t.key_of(d, x) == key,
        dropped is None ==> !t.contents(d).contains_key(key),
        added matches Some(x) ==> t2.key_of(d2, x) == key,
    ensures
        t2.contents(d2) == match added {
            Some(x) => t.contents(d).insert(key, t2.value_of(d2, x)),
            None => t.contents(d).remove(key),
        },
{
    crate::evolve::lemma_rebuilt(t, d, t2, d2, touched, a, len);
    let before = t.contents(d);
    let after = t2.contents(d2);
    let expected = match added {
        Some(x) => before.insert(key, t2.value_of(d2, x)),
        None => before.remove(key),
    };
    assert forall|k: Seq<u8>| after.contains_key(k) <==> expected.contains_key(k) by {
        if after.contains_key(k) {
            let x = t2.lemma_stored_listed(d2, k);
            if added != Some(x) {
                crate::evolve::lemma_listed_kept(t, d, t2, d2, touched, a, len, x);
                t.lemma_listed_stored(d, x);
                if dropped is Some && k == key {
                    t.lemma_one_entry(d, x, dropped->Some_0);
                }
            }
        }
        if expected.contains_key(k) {
            if k == key {
                t2.lemma_listed_stored(d2, added->Some_0);
            } else {
                let x = t.lemma_stored_listed(d, k);
                crate::evolve::lemma_listed_kept(t, d, t2, d2, touched, a, len, x);
                assert(t2.listed(d2, x));
                t2.lemma_listed_stored(d2, x);
            }
        }
    }
    assert forall|k: Seq<u8>| after.contains_key(k) implies after[k] == expected[k] by {
        if k == key {
            t2.lemma_listed_stored(d2, added->Some_0);
        } else {
            let x = t.lemma_stored_listed(d, k);
            crate::evolve::lemma_listed_kept(t, d, t2, d2, touched, a, len, x);
            assert(t2.listed(d2, x));
            t2.lemma_listed_stored(d2, x);
        }
    }
    assert(after =~= expected);
}

/// The files store the same when the same entries are listed.
pub proof fn lemma_contents_same(
    t: Table,
    d: Disk,
    t2: Table,
    d2: Disk,
    touched: Set<int>,
    a: u64,
    len: int,
)
    requires
        t.well_formed(d),
        crate::evolve::rebuilt(t, d, t2, d2, touched, a, len),
        forall|x: BucketEntry| #[trigger] t2.listed(d2, x) <==> t.listed(d, x),
    ensures
        t2.contents(d2) == t.contents(d),
{
    crate::evolve::lemma_rebuilt(t, d, t2, d2, touched, a, len);
    let before = t.contents(d);
    let after = t2.contents(d2);
    assert forall|k: Seq<u8>| after.contains_key(k) <==> before.contains_key(k) by {
        if after.contains_key(k) {
            let x = t2.lemma_stored_listed(d2, k);
            crate::evolve::lemma_listed_kept(t, d, t2, d2, touched, a, len, x);
            t.lemma_listed_stored(d, x);
        }
        if before.contains_key(k) {
            let x = t.lemma_stored_listed(d, k);
            crate::evolve::lemma_listed_kept(t, d, t2, d2, touched, a, len, x);
            t2.lemma_listed_stored(d2, x);
        }
    }
    assert forall|k: Seq<u8>| after.contains_key(k) implies after[k] == before[k] by {
        let x = t.lemma_stored_listed(d, k);
        crate::evolve::lemma_listed_kept(t, d, t2, d2, touched, a, len, x);
        t2.lemma_listed_stored(d2, x);
    }
    assert(after =~= before);
}

} // verus!

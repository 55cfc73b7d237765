//! How a store conducts itself, in plain numbers: when it grows and by how
//! much, when it takes a value and when it refuses one, and what it leaves
//! alone.

use crate::error::Error;
use crate::format::KeyHeader;
use crate::model::Disk;
use crate::table::{StoreOptions, Table};
use vstd::prelude::*;

verus! {

/// The keys for each 65536 places, where each of so many blocks has a place for
/// each 18 bytes past the first 8.
pub open spec fn load_of(keys: int, blocks: int, block_size: int) -> int {
    (keys * 65536) / (blocks * ((block_size - 8) / 18))
}

/// The settings of a store never change, whatever its files hold.
pub proof fn law_settings_kept(t: Table, d: Disk, key: Seq<u8>, value: Seq<u8>)
    ensures
        settings_same(t.header, t.inserting(d, key, value).1.header),
        settings_same(t.header, t.upserting(d, key, value).1.header),
        settings_same(t.header, t.removing(d, key).1.header),
{
}

/// Two headers differ in their counts only.
pub open spec fn settings_same(a: KeyHeader, b: KeyHeader) -> bool {
    &&& a.version == b.version
    &&& a.uid == b.uid
    &&& a.appnum == b.appnum
    &&& a.key_size == b.key_size
    &&& a.salt == b.salt
    &&& a.pepper == b.pepper
    &&& a.block_size == b.block_size
    &&& a.load_factor == b.load_factor
}

/// Intact files state the table's header at its places, and have the sizes that
/// it implies.
pub proof fn law_files_state_header(t: Table, d: Disk)
    requires
        t.intact(d),
    ensures
        crate::plain::states(d.key, t.header),
        t.header.version == 2,
        t.header.block_size >= 104,
        t.header.bucket_count >= 1,
        d.key.len() == (t.header.bucket_count + 1) * t.header.block_size,
        d.dat.len() >= 92,
{
    reveal(Table::intact);
    t.lemma_level_bound();
    t.lemma_block_offset(0);
    let block = t.header.block();
    let rest = d.key.skip(t.bs());
    crate::plain::law_key_header_bytes(t.header, rest);
    assert(d.key =~= block + rest) by {
        assert forall|x: int| 0 <= x < t.bs() implies d.key[x] == block[x] by {
            assert(d.key.subrange(0, t.bs())[x] == block[x]);
        }
    }
}

/// Inserting a key that was not stored counts it, and splits a bucket exactly
/// if the keys are then too many for the buckets that there are. Nothing but
/// the load decides. The header says so on disk.
pub proof fn law_growth(t: Table, d: Disk, key: Seq<u8>, value: Seq<u8>)
    requires
        t.intact(d),
        key.len() == t.header.key_size,
        t.inserting(d, key, value).0 == Ok::<bool, Error>(true),
    ensures
        ({
            let (_, t2, d2) = t.inserting(d, key, value);
            let load = (t.header.key_count + 1) * 65536 / (t.header.bucket_count * ((
            t.header.block_size - 8) / 18));
            &&& t2.header.key_count == t.header.key_count + 1
            &&& load > t.header.load_factor ==> t2.header.bucket_count == t.header.bucket_count + 1
            &&& load <= t.header.load_factor ==> t2.header.bucket_count == t.header.bucket_count
            &&& crate::plain::number_at(d2.key, 48, 8) == t2.header.bucket_count
            &&& crate::plain::number_at(d2.key, 56, 8) == t2.header.key_count
            &&& d2.key.len() == (t2.header.bucket_count + 1) * t.header.block_size
        }),
{
    let (_, t2, d2) = t.inserting(d, key, value);
    lemma_insert_counts(t, d, key, value);
    law_files_state_header(t, d);
    law_files_state_header(t2, d2);
    lemma_load(t.counting((t.header.key_count + 1) as u64));
    law_settings_kept(t, d, key, value);
}

/// The load of a header with buckets.
pub proof fn lemma_load(t: Table)
    requires
        t.header.block_size >= 104,
        t.header.bucket_count >= 1,
    ensures
        t.overloaded() <==> load_of(
            t.header.key_count as int,
            t.header.bucket_count as int,
            t.header.block_size as int,
        ) > t.header.load_factor,
{
    let n = t.header.bucket_count as int;
    let c = (t.header.block_size - 8) / 18;
    assert(n * c >= 1) by (nonlinear_arith)
        requires
            n >= 1,
            c >= 1,
    ;
}

/// The counts after an insert.
proof fn lemma_insert_counts(t: Table, d: Disk, key: Seq<u8>, value: Seq<u8>)
    requires
        t.intact(d),
        key.len() == t.header.key_size,
    ensures
        ({
            let (outcome, t2, d2) = t.inserting(d, key, value);
            let counted = t.counting((t.header.key_count + 1) as u64);
            &&& t.header.key_count < u64::MAX
            &&& t2.intact(d2)
            &&& outcome == Ok::<bool, Error>(true) ==> {
                &&& t2.header.key_count == t.header.key_count + 1
                &&& t2.header.bucket_count == t.header.bucket_count + if counted.overloaded() {
                    1int
                } else {
                    0
                }
            }
            &&& outcome == Ok::<bool, Error>(false) ==> t2 == t && d2 == d
        }),
{
    t.lemma_key_count_bound(d);
    t.lemma_inserting(d, key, value);
    assert(t.header.bucket_count < u64::MAX) by {
        reveal(Table::intact);
        t.lemma_level_bound();
    }
    lemma_counts(t, d, key, value);
}

/// The counts after a key has been stored.
proof fn lemma_counts(t: Table, d: Disk, key: Seq<u8>, value: Seq<u8>)
    requires
        t.header.key_count < u64::MAX,
        t.header.bucket_count < u64::MAX,
    ensures
        ({
            let (t1, d1) = t.stored(d, key, value);
            let (t2, d2) = t1.after_split(d1);
            &&& t1 == t.counting((t.header.key_count + 1) as u64)
            &&& t2.header.key_count == t.header.key_count + 1
            &&& t1.split_error(d1) is None ==> t2.header.bucket_count == t.header.bucket_count
                + if t1.overloaded() {
                1int
            } else {
                0
            }
            &&& t1.split_error(d1) is Some ==> t1.overloaded() && t2.header.bucket_count
                == t.header.bucket_count
        }),
{
}

/// Where a load factor lets a bucket take at least one key, an insert does not
/// leave a store over its load factor.
pub proof fn law_load_kept(t: Table, d: Disk, key: Seq<u8>, value: Seq<u8>)
    requires
        t.intact(d),
        key.len() == t.header.key_size,
        t.inserting(d, key, value).0 is Ok,
        (t.header.load_factor + 1) * ((t.header.block_size - 8) / 18) >= 65536,
        load_of(
            t.header.key_count as int,
            t.header.bucket_count as int,
            t.header.block_size as int,
        ) <= t.header.load_factor,
    ensures
        ({
            let (_, t2, d2) = t.inserting(d, key, value);
            load_of(
                t2.header.key_count as int,
                t2.header.bucket_count as int,
                t2.header.block_size as int,
            ) <= t2.header.load_factor
        }),
{
    let (outcome, t2, d2) = t.inserting(d, key, value);
    let counted = t.counting((t.header.key_count + 1) as u64);
    lemma_insert_counts(t, d, key, value);
    law_settings_kept(t, d, key, value);
    law_files_state_header(t, d);
    lemma_load(counted);
    if outcome == Ok::<bool, Error>(true) && counted.overloaded() {
        lemma_one_more_bucket(
            t.header.key_count as int,
            t.header.bucket_count as int,
            (t.header.block_size - 8) / 18,
            t.header.load_factor as int,
        );
    }
}

/// One more bucket makes up for one more key.
proof fn lemma_one_more_bucket(k: int, n: int, c: int, factor: int)
    requires
        k >= 0,
        n >= 1,
        c >= 1,
        factor >= 0,
        (factor + 1) * c >= 65536,
        (k * 65536) / (n * c) <= factor,
    ensures
        ((k + 1) * 65536) / ((n + 1) * c) <= factor,
{
    let p = n * c;
    let q = (n + 1) * c;
    let x = k * 65536;
    let y = (k + 1) * 65536;
    assert(p >= 1 && q == p + c) by (nonlinear_arith)
        requires
            p == n * c,
            q == (n + 1) * c,
            n >= 1,
            c >= 1,
    ;
    vstd::arithmetic::div_mod::lemma_fundamental_div_mod(x, p);
    vstd::arithmetic::div_mod::lemma_mod_bound(x, p);
    assert(x < (factor + 1) * p) by (nonlinear_arith)
        requires
            x == p * (x / p) + x % p,
            x % p < p,
            x / p <= factor,
            p >= 1,
    ;
    assert((factor + 1) * q == (factor + 1) * p + (factor + 1) * c) by (nonlinear_arith)
        requires
            q == p + c,
    ;
    assert(y < (factor + 1) * q);
    vstd::arithmetic::div_mod::lemma_fundamental_div_mod(y, q);
    vstd::arithmetic::div_mod::lemma_mod_bound(y, q);
    assert(y / q <= factor) by (nonlinear_arith)
        requires
            y == q * (y / q) + y % q,
            y % q >= 0,
            y < (factor + 1) * q,
            q >= 1,
    ;
}

/// Every one of these inserts, one after the other, succeeds.
pub open spec fn all_taken(t: Table, d: Disk, pairs: Seq<(Seq<u8>, Seq<u8>)>) -> bool
    decreases pairs.len(),
{
    pairs.len() == 0 || {
        let (t1, d1) = crate::records::filled(t, d, pairs.drop_last());
        &&& all_taken(t, d, pairs.drop_last())
        &&& t1.inserting(d1, pairs.last().0, pairs.last().1).0 is Ok
    }
}

/// A store that was filled by inserts that succeeded is not over its load
/// factor.
pub proof fn law_filled_load(
    options: StoreOptions,
    uid: u64,
    salt: u64,
    pairs: Seq<(Seq<u8>, Seq<u8>)>,
)
    requires
        options.block_size >= 104,
        (options.load_factor + 1) * ((options.block_size - 8) / 18) >= 65536,
        forall|i: int|
            0 <= i < pairs.len() ==> (#[trigger] pairs[i]).0.len() == options.key_size,
        all_taken(
            Table::fresh(options, uid, salt),
            (Disk {
                dat: Table::fresh(options, uid, salt).new_dat(),
                key: Table::fresh(options, uid, salt).new_key(),
            }),
            pairs,
        ),
    ensures
        ({
            let fresh = Table::fresh(options, uid, salt);
            let files = Disk { dat: fresh.new_dat(), key: fresh.new_key() };
            let (t, d) = crate::records::filled(fresh, files, pairs);
            &&& t.intact(d)
            &&& settings_same(t.header, fresh.header)
            &&& load_of(
                t.header.key_count as int,
                t.header.bucket_count as int,
                options.block_size as int,
            ) <= options.load_factor
        }),
    decreases pairs.len(),
{
    let fresh = Table::fresh(options, uid, salt);
    let files = Disk { dat: fresh.new_dat(), key: fresh.new_key() };
    if pairs.len() == 0 {
        Table::lemma_fresh(options, uid, salt);
        let c = (options.block_size - 8) / 18;
        assert(0int / (1 * c) == 0) by (nonlinear_arith)
            requires
                c >= 1,
        ;
    } else {
        let rest = pairs.drop_last();
        assert forall|i: int| 0 <= i < rest.len() implies (#[trigger] rest[i]).0.len()
            == options.key_size by {
            assert(rest[i] == pairs[i]);
        }
        law_filled_load(options, uid, salt, rest);
        let (t1, d1) = crate::records::filled(fresh, files, rest);
        let (key, value) = pairs.last();
        assert(pairs[pairs.len() - 1].0.len() == options.key_size);
        law_load_kept(t1, d1, key, value);
        lemma_insert_counts(t1, d1, key, value);
        law_settings_kept(t1, d1, key, value);
    }
}

/// Whether a key is stored decides what each operation answers; a stored key is
/// neither inserted nor counted again.
pub proof fn law_answers(t: Table, d: Disk, key: Seq<u8>, value: Seq<u8>)
    requires
        t.intact(d),
        key.len() == t.header.key_size,
    ensures
        t.fetching(d, key) is Ok,
        t.finding(d, key) == Ok::<bool, Error>(t.fetching(d, key)->Ok_0 is Some),
        t.removing(d, key).0 == Ok::<bool, Error>(t.fetching(d, key)->Ok_0 is Some),
        t.fetching(d, key)->Ok_0 is Some ==> t.inserting(d, key, value) == (
            Ok::<bool, Error>(false),
            t,
            d,
        ),
        t.fetching(d, key)->Ok_0 is None ==> t.removing(d, key).1 == t && t.removing(d, key).2 == d,
        t.fetching(d, key)->Ok_0 is None ==> t.inserting(d, key, value).0 != Ok::<bool, Error>(
            false,
        ),
        t.removing(d, key).1.header.bucket_count == t.header.bucket_count,
{
    assert(t.well_formed(d)) by {
        reveal(Table::intact);
    }
    t.lemma_sought(d, key, true);
    t.lemma_sought(d, key, false);
    t.lemma_removing(d, key);
    t.lemma_inserting(d, key, value);
}

/// A new store holds no key.
pub proof fn law_new_store_empty(options: StoreOptions, uid: u64, salt: u64, key: Seq<u8>)
    requires
        options.block_size >= 104,
        key.len() == options.key_size,
    ensures
        ({
            let t = Table::fresh(options, uid, salt);
            let d = Disk { dat: t.new_dat(), key: t.new_key() };
            &&& t.intact(d)
            &&& t.fetching(d, key) == Ok::<Option<Seq<u8>>, Error>(None)
        }),
{
    let t = Table::fresh(options, uid, salt);
    let d = Disk { dat: t.new_dat(), key: t.new_key() };
    Table::lemma_fresh(options, uid, salt);
    assert(t.well_formed(d)) by {
        reveal(Table::intact);
    }
    t.lemma_sought(d, key, true);
}

/// What an insert of a key that is not stored comes to, by the errors that can
/// come of it.
pub proof fn lemma_insert_outcome(t: Table, d: Disk, key: Seq<u8>, value: Seq<u8>)
    requires
        t.intact(d),
        key.len() == t.header.key_size,
        t.fetching(d, key) == Ok::<Option<Seq<u8>>, Error>(None),
    ensures
        ({
            let (t1, d1) = t.stored(d, key, value);
            let outcome = t.inserting(d, key, value).0;
            &&& !t.contents(d).contains_key(key)
            &&& t1 == t.counting((t.header.key_count + 1) as u64)
            &&& t.storing(d, key, value) matches Err(error) ==> error == Error::DataFileFull
                && outcome == Err::<bool, Error>(error)
            &&& t.storing(d, key, value) is Ok ==> outcome == match t1.split_error(d1) {
                None => Ok::<bool, Error>(true),
                Some(error) => Err(error),
            }
        }),
{
    assert(t.well_formed(d)) by {
        reveal(Table::intact);
    }
    t.lemma_sought(d, key, true);
    t.lemma_inserting(d, key, value);
}

/// Where the data file has room for the record and for a spill record for each
/// key, and the key file, if a bucket is to be split, has room for one more
/// block, a key that is not stored is inserted. Upserting succeeds as well.
pub proof fn law_room_suffices(t: Table, d: Disk, key: Seq<u8>, value: Seq<u8>)
    requires
        t.intact(d),
        key.len() == t.header.key_size,
        t.fetching(d, key) == Ok::<Option<Seq<u8>>, Error>(None),
        d.dat.len() + 6 + t.header.key_size + value.len() + (t.header.key_count + 2) * (8
            + t.header.block_size) <= 0x1_0000_0000_0000,
        (t.header.key_count + 1) * 65536 / (t.header.bucket_count * ((t.header.block_size - 8)
            / 18)) > t.header.load_factor ==> (t.header.bucket_count + 2) * t.header.block_size
            <= 0x7fff_ffff_ffff_ffff,
    ensures
        t.inserting(d, key, value).0 == Ok::<bool, Error>(true),
        t.upserting(d, key, value).0 == Ok::<(), Error>(()),
{
    t.lemma_key_count_bound(d);
    law_files_state_header(t, d);
    lemma_insert_outcome(t, d, key, value);
    crate::laws::lemma_no_data_shortage(t, d, key, value);
    lemma_load(t.counting((t.header.key_count + 1) as u64));
    let count = t.header.key_count as int;
    let size = 8 + t.header.block_size;
    assert((count + 2) * size >= 0) by (nonlinear_arith)
        requires
            count >= 0,
            size >= 0,
    ;
    t.lemma_upserting(d, key, value);
}

/// A key that is not stored is refused only for want of room: in the key file,
/// where a bucket is to be split and one more block is too much for a file, or
/// in the data file.
pub proof fn law_refused_for_want_of_room(t: Table, d: Disk, key: Seq<u8>, value: Seq<u8>)
    requires
        t.intact(d),
        key.len() == t.header.key_size,
        t.fetching(d, key) == Ok::<Option<Seq<u8>>, Error>(None),
        t.inserting(d, key, value).0 is Err,
    ensures
        t.inserting(d, key, value).0->Err_0 == Error::KeyFileFull
            || t.inserting(d, key, value).0->Err_0 == Error::DataFileFull,
        t.inserting(d, key, value).0->Err_0 == Error::KeyFileFull ==> {
            &&& (t.header.bucket_count + 2) * t.header.block_size > 0x7fff_ffff_ffff_ffff
            &&& (t.header.key_count + 1) * 65536 / (t.header.bucket_count * ((t.header.block_size
                - 8) / 18)) > t.header.load_factor
        },
        t.inserting(d, key, value).0->Err_0 == Error::DataFileFull ==> d.dat.len() + 6
            + t.header.key_size + value.len() + (t.header.key_count + 2) * (8
            + t.header.block_size) > 0x1_0000_0000_0000,
{
    t.lemma_key_count_bound(d);
    law_files_state_header(t, d);
    lemma_insert_outcome(t, d, key, value);
    lemma_load(t.counting((t.header.key_count + 1) as u64));
    if d.dat.len() + 6 + t.header.key_size + value.len() + (t.header.key_count + 2) * (8
        + t.header.block_size) <= 0x1_0000_0000_0000 {
        crate::laws::lemma_no_data_shortage(t, d, key, value);
    }
}

/// A value whose record's offset or size does not fit in 48 bits is not
/// upserted, and nothing changes.
pub proof fn law_too_large_not_upserted(t: Table, d: Disk, key: Seq<u8>, value: Seq<u8>)
    requires
        t.intact(d),
        key.len() == t.header.key_size,
        d.dat.len() >= 0x1_0000_0000_0000 || key.len() + value.len() >= 0x1_0000_0000_0000,
    ensures
        t.upserting(d, key, value) == (Err::<(), Error>(Error::DataFileFull), t, d),
{
    t.lemma_upserting(d, key, value);
}

/// A value whose record's offset or size does not fit in 48 bits is not
/// inserted, and nothing changes.
pub proof fn law_too_large_not_inserted(t: Table, d: Disk, key: Seq<u8>, value: Seq<u8>)
    requires
        t.intact(d),
        key.len() == t.header.key_size,
        t.fetching(d, key) == Ok::<Option<Seq<u8>>, Error>(None),
        d.dat.len() >= 0x1_0000_0000_0000 || key.len() + value.len() >= 0x1_0000_0000_0000,
    ensures
        t.inserting(d, key, value) == (Err::<bool, Error>(Error::DataFileFull), t, d),
{
    lemma_insert_outcome(t, d, key, value);
    assert(t.storing(d, key, value) is Err) by {
        reveal(Table::intact);
        assert(d.dat.len() as u64 == d.dat.len());
    }
    t.lemma_inserting(d, key, value);
}

/// A stored key takes every value whose record's offset and size fit in 48
/// bits. The counts stay.
pub proof fn law_stored_key_takes_value(t: Table, d: Disk, key: Seq<u8>, value: Seq<u8>)
    requires
        t.intact(d),
        key.len() == t.header.key_size,
        t.finding(d, key) == Ok::<bool, Error>(true),
        d.dat.len() < 0x1_0000_0000_0000,
        key.len() + value.len() < 0x1_0000_0000_0000,
    ensures
        ({
            let (outcome, t2, d2) = t.upserting(d, key, value);
            &&& outcome == Ok::<(), Error>(())
            &&& t2 == t
            &&& d2.dat.len() == d.dat.len() + 6 + key.len() + value.len()
        }),
{
    assert(t.well_formed(d)) by {
        reveal(Table::intact);
    }
    t.lemma_sought(d, key, false);
    t.lemma_sought(d, key, true);
    t.lemma_upserting(d, key, value);
    t.lemma_upsert_found(d, key, value);
    let l = t.sought(d, key, true)->Ok_0;
    crate::ops::lemma_replaced(t, d, l, value, t.upserting(d, key, value).2);
}

/// Upserting a key that is not stored and that an insert would count does what
/// the insert does.
pub proof fn law_upsert_as_insert(t: Table, d: Disk, key: Seq<u8>, value: Seq<u8>)
    requires
        t.intact(d),
        key.len() == t.header.key_size,
        t.fetching(d, key) == Ok::<Option<Seq<u8>>, Error>(None),
        t.inserting(d, key, value).1.header.key_count != t.header.key_count,
    ensures
        t.upserting(d, key, value).1 == t.inserting(d, key, value).1,
        t.upserting(d, key, value).2 == t.inserting(d, key, value).2,
        match t.inserting(d, key, value).0 {
            Ok(_) => t.upserting(d, key, value).0 == Ok::<(), Error>(()),
            Err(error) => t.upserting(d, key, value).0 == Err::<(), Error>(error),
        },
{
    lemma_insert_outcome(t, d, key, value);
    t.lemma_inserting(d, key, value);
    assert(d.dat.len() as u64 == d.dat.len()) by {
        reveal(Table::intact);
    }
    assert(crate::write::recordable(key, value, d.dat.len() as int));
    t.lemma_upserting(d, key, value);
}

} // verus!

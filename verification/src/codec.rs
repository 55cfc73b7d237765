//! Fixed-width integers as byte strings.
//!
//! Every integer of the file format is stored most significant byte first, in
//! two, six or eight bytes.

use vstd::prelude::*;

verus! {

/// One more than the largest number that fits in `width` bytes.
pub open spec fn radix(width: nat) -> nat
    decreases width,
{
    if width == 0 {
        1
    } else {
        256 * radix((width - 1) as nat)
    }
}

/// The number that a byte string stands for, most significant byte first.
pub open spec fn be_value(bytes: Seq<u8>) -> nat
    decreases bytes.len(),
{
    if bytes.len() == 0 {
        0
    } else {
        be_value(bytes.drop_last()) * 256 + bytes.last() as nat
    }
}

/// The low `width` bytes of `value`, most significant byte first.
pub open spec fn be_bytes(value: nat, width: nat) -> Seq<u8>
    decreases width,
{
    if width == 0 {
        Seq::empty()
    } else {
        be_bytes(value / 256, (width - 1) as nat).push((value % 256) as u8)
    }
}

/// The low `width` bytes of `value`, least significant byte first.
pub open spec fn le_bytes(value: nat, width: nat) -> Seq<u8>
    decreases width,
{
    if width == 0 {
        Seq::empty()
    } else {
        seq![(value % 256) as u8] + le_bytes(value / 256, (width - 1) as nat)
    }
}

/// The widths that the format uses.
pub proof fn lemma_radix_values()
    ensures
        radix(2) == 0x1_0000,
        radix(6) == 0x1_0000_0000_0000,
        radix(8) == 0x1_0000_0000_0000_0000,
{
    reveal_with_fuel(radix, 9);
}

pub proof fn lemma_radix_monotone(a: nat, b: nat)
    requires
        a <= b,
    ensures
        1 <= radix(a) <= radix(b),
    decreases b,
{
    if a < b {
        lemma_radix_monotone(a, (b - 1) as nat);
    } else if a > 0 {
        lemma_radix_monotone((a - 1) as nat, (a - 1) as nat);
    }
}

/// `be_bytes` yields exactly the width asked for.
pub broadcast proof fn lemma_be_bytes_len(value: nat, width: nat)
    ensures
        (#[trigger] be_bytes(value, width)).len() == width,
    decreases width,
{
    if width > 0 {
        lemma_be_bytes_len(value / 256, (width - 1) as nat);
    }
}

/// A byte string never stands for more than its width allows.
pub proof fn lemma_be_value_bound(bytes: Seq<u8>)
    ensures
        be_value(bytes) < radix(bytes.len()),
    decreases bytes.len(),
{
    if bytes.len() > 0 {
        lemma_be_value_bound(bytes.drop_last());
    }
}

/// A number that fits in `width` bytes is read back as it was written.
pub proof fn law_integer_read_back(value: nat, width: nat)
    requires
        value < radix(width),
    ensures
        be_bytes(value, width).len() == width,
        be_value(be_bytes(value, width)) == value,
    decreases width,
{
    if width > 0 {
        law_integer_read_back(value / 256, (width - 1) as nat);
        let bytes = be_bytes(value, width);
        assert(bytes.drop_last() =~= be_bytes(value / 256, (width - 1) as nat));
    }
}

/// Every byte string is what its number is written as.
pub proof fn law_integer_bytes_unique(bytes: Seq<u8>)
    ensures
        be_bytes(be_value(bytes), bytes.len()) == bytes,
    decreases bytes.len(),
{
    if bytes.len() > 0 {
        law_integer_bytes_unique(bytes.drop_last());
        let high = be_value(bytes.drop_last());
        let low = bytes.last() as nat;
        assert((high * 256 + low) / 256 == high && (high * 256 + low) % 256 == low);
        assert(bytes.drop_last().push(bytes.last()) =~= bytes);
    }
    assert(be_bytes(be_value(bytes), bytes.len()) =~= bytes);
}

/// Appends the low `width` bytes of `value`, most significant first.
pub fn put_be(buf: &mut Vec<u8>, value: u64, width: usize)
    ensures
        final(buf)@ == old(buf)@ + be_bytes(value as nat, width as nat),
    decreases width,
{
    if width > 0 {
        put_be(buf, value / 256, width - 1);
        buf.push((value % 256) as u8);
    }
    assert(buf@ =~= old(buf)@ + be_bytes(value as nat, width as nat));
}

/// Appends the low `width` bytes of `value`, least significant first.
pub fn put_le(buf: &mut Vec<u8>, value: u64, width: usize)
    ensures
        final(buf)@ == old(buf)@ + le_bytes(value as nat, width as nat),
    decreases width,
{
    if width > 0 {
        buf.push((value % 256) as u8);
        put_le(buf, value / 256, width - 1);
    }
    assert(buf@ =~= old(buf)@ + le_bytes(value as nat, width as nat));
}

/// Reads the `width` bytes at `at`, most significant first.
pub fn get_be(bytes: &[u8], at: usize, width: usize) -> (value: u64)
    requires
        at + width <= bytes@.len(),
        width <= 8,
    ensures
        value == be_value(bytes@.subrange(at as int, at + width)),
        value < radix(width as nat),
    decreases width,
{
    let ghost field = bytes@.subrange(at as int, at + width);
    proof {
        lemma_be_value_bound(field);
        lemma_radix_monotone(width as nat, 8);
        lemma_radix_values();
    }
    if width == 0 {
        0
    } else {
        let high = get_be(bytes, at, width - 1);
        assert(field.drop_last() =~= bytes@.subrange(at as int, at + width - 1));
        assert(bytes.len() == bytes@.len());
        high * 256 + bytes[at + (width - 1)] as u64
    }
}

/// The six bytes of a 48-bit field.
pub fn write_u48(value: u64) -> (bytes: Vec<u8>)
    ensures
        bytes@ == be_bytes(value as nat, 6),
{
    let mut bytes: Vec<u8> = Vec::new();
    put_be(&mut bytes, value, 6);
    assert(bytes@ =~= be_bytes(value as nat, 6));
    bytes
}

/// The value of a 48-bit field.
pub fn read_u48(bytes: &[u8]) -> (value: u64)
    requires
        bytes@.len() == 6,
    ensures
        value == be_value(bytes@),
        value < 0x1_0000_0000_0000,
{
    proof {
        lemma_radix_values();
        assert(bytes@.subrange(0, 6) =~= bytes@);
    }
    get_be(bytes, 0, 6)
}

} // verus!

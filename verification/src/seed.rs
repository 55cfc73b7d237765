//! Random numbers for a new store's identifier and salt.

use vstd::prelude::*;

verus! {

/// Declares `std::time::SystemTime`, a reading of the system clock.
#[verifier::external_type_specification]
#[verifier::external_body]
pub struct ExSystemTime(std::time::SystemTime);

/// Declares `std::time::SystemTimeError`, which says that one clock reading
/// lies before another.
#[verifier::external_type_specification]
#[verifier::external_body]
pub struct ExSystemTimeError(std::time::SystemTimeError);

/// Calls `std::time::SystemTime::now`. Nothing is claimed of the reading.
#[verifier::external_body]
fn clock() -> (now: std::time::SystemTime) {
    std::time::SystemTime::now()
}

/// Calls `std::time::SystemTime::duration_since` with the Unix epoch. Nothing
/// is claimed of the result: a clock may stand before the epoch.
#[verifier::external_body]
fn since_epoch(now: std::time::SystemTime) -> (elapsed: Result<
    std::time::Duration,
    std::time::SystemTimeError,
>) {
    now.duration_since(std::time::UNIX_EPOCH)
}

/// Calls `std::time::Duration::as_nanos`. Nothing is claimed of the count.
#[verifier::external_body]
fn nanoseconds(elapsed: std::time::Duration) -> (count: u128) {
    elapsed.as_nanos()
}

/// The bits of `v` folded onto those `shift` places lower.
pub open spec fn folded(v: u64, shift: u64) -> u64 {
    v ^ (v >> shift)
}

/// A clock reading, in nanoseconds, with its bits spread.
pub open spec fn scrambled(nanos: u64) -> u64 {
    folded(((folded(nanos, 13) * 0x7feb352d) % 0x1_0000_0000_0000_0000) as u64, 15)
}

/// The low 64 bits of the nanoseconds since the Unix epoch, or zero on a clock
/// before the epoch.
pub open spec fn reading(nanos: Option<u128>) -> u64 {
    match nanos {
        Some(count) => (count % 0x1_0000_0000_0000_0000) as u64,
        None => 0,
    }
}

/// Spreads the bits of a clock reading.
pub fn scramble(nanos: u64) -> (value: u64)
    ensures
        value == scrambled(nanos),
{
    let v: u64 = nanos ^ (nanos >> 13u64);
    let v: u64 = v.wrapping_mul(0x7feb352d);
    v ^ (v >> 15u64)
}

/// The number that the clock gives when it stands these nanoseconds after the
/// Unix epoch, or before it.
pub fn seed_at(nanos: Option<u128>) -> (value: u64)
    ensures
        value == scrambled(
            match nanos {
                Some(count) => (count % 0x1_0000_0000_0000_0000) as u64,
                None => 0,
            },
        ),
        value == scrambled(reading(nanos)),
{
    match nanos {
        Some(count) => {
            assert(count as u64 == count % 0x1_0000_0000_0000_0000) by (bit_vector);
            scramble(
                #[verifier::truncate]
                (count as u64),
            )
        },
        None => scramble(0),
    }
}

/// What a function returns for an argument: one of its outcomes.
fn outcome_of<A, B, F: Fn(A) -> B>(f: F, argument: A) -> (outcome: B)
    requires
        call_requires(f, (argument,)),
    ensures
        call_ensures(f, (argument,), outcome),
{
    f(argument)
}

/// What a function without arguments returns: one of its outcomes.
fn outcome_now<B, F: Fn() -> B>(f: F) -> (outcome: B)
    requires
        call_requires(f, ()),
    ensures
        call_ensures(f, (), outcome),
{
    f()
}

/// The clock has given these nanoseconds since the Unix epoch, or has stood
/// before it: they are what `nanoseconds` returned of what `since_epoch`
/// returned of what `clock` returned.
pub closed spec fn ticked(nanos: Option<u128>) -> bool {
    exists|
        now: std::time::SystemTime,
        elapsed: Result<std::time::Duration, std::time::SystemTimeError>,
    |
        #![trigger call_ensures(since_epoch, (now,), elapsed)]
        {
            &&& call_ensures(clock, (), now)
            &&& call_ensures(since_epoch, (now,), elapsed)
            &&& match (elapsed, nanos) {
                (Ok(duration), Some(count)) => call_ensures(nanoseconds, (duration,), count),
                (Err(_), None) => true,
                _ => false,
            }
        }
}

/// Reads the clock: the nanoseconds since the Unix epoch, or none on a clock
/// before the epoch.
fn read_clock() -> (nanos: Option<u128>)
    ensures
        ticked(nanos),
        exists|
            now: std::time::SystemTime,
            elapsed: Result<std::time::Duration, std::time::SystemTimeError>,
        |
            #![trigger call_ensures(since_epoch, (now,), elapsed)]
            {
                &&& call_ensures(clock, (), now)
                &&& call_ensures(since_epoch, (now,), elapsed)
                &&& nanos is Some <==> elapsed is Ok
                &&& nanos is Some ==> call_ensures(
                    nanoseconds,
                    (elapsed->Ok_0,),
                    nanos->Some_0,
                )
            },
{
    let now: std::time::SystemTime = outcome_now(clock);
    match outcome_of(since_epoch, now) {
        Ok(duration) => Some(outcome_of(nanoseconds, duration)),
        Err(_) => None,
    }
}

/// A number from the clock: good enough to tell stores apart, not to keep a
/// secret.
pub fn rand_u64() -> (value: u64)
    ensures
        exists|nanos: Option<u128>| value == scrambled(#[trigger] reading(nanos)),
        exists|nanos: Option<u128>| #[trigger]
            ticked(nanos) && value == scrambled(
                match nanos {
                    Some(count) => (count % 0x1_0000_0000_0000_0000) as u64,
                    None => 0,
                },
            ),
{
    let nanos: Option<u128> = read_clock();
    assert(ticked(nanos));
    let ghost low = reading(nanos);
    seed_at(nanos)
}

/// Multiplying by the inverse of the multiplier of `scrambled`, modulo two to
/// the power 64, gives a number back.
proof fn lemma_product_inverse(a: u64)
    ensures
        (((a * 0x7feb352d) % 0x1_0000_0000_0000_0000) * 0x1f71_05e5_1d69_e2a5)
            % 0x1_0000_0000_0000_0000 == a,
{
    let m: int = 0x1_0000_0000_0000_0000;
    let inverse: int = 0x1f71_05e5_1d69_e2a5;
    let product = a * 0x7feb352d;
    vstd::arithmetic::div_mod::lemma_mul_mod_noop_left(product, inverse, m);
    assert(0x7feb352d * inverse == 263583029 * m + 1);
    assert(product * inverse == m * (a * 263583029) + a) by (nonlinear_arith)
        requires
            product == a * 0x7feb352d,
            0x7feb352d * inverse == 263583029 * m + 1,
    ;
    vstd::arithmetic::div_mod::lemma_mod_multiples_vanish(a * 263583029, a as int, m);
    vstd::arithmetic::div_mod::lemma_small_mod(a as nat, m as nat);
}

/// Distinct clock readings give distinct numbers, so stores created at distinct
/// readings are told apart.
pub proof fn law_readings_told_apart(a: u64, b: u64)
    requires
        scrambled(a) == scrambled(b),
    ensures
        a == b,
{
    let x = a ^ (a >> 13u64);
    let y = b ^ (b >> 13u64);
    let p = ((x * 0x7feb352d) % 0x1_0000_0000_0000_0000) as u64;
    let q = ((y * 0x7feb352d) % 0x1_0000_0000_0000_0000) as u64;
    assert(p == q) by (bit_vector)
        requires
            p ^ (p >> 15u64) == q ^ (q >> 15u64),
    ;
    lemma_product_inverse(x);
    lemma_product_inverse(y);
    assert(a == b) by (bit_vector)
        requires
            a ^ (a >> 13u64) == b ^ (b >> 13u64),
    ;
}

/// How a clock reading is spread: its bits are folded by 13 places, multiplied,
/// and folded by 15 places.
pub proof fn law_spread(nanos: u64, folded: u64, product: u64)
    requires
        folded == nanos ^ (nanos >> 13u64),
        exists|carry: int| #[trigger] (carry * 0x1_0000_0000_0000_0000) + product == folded
            * 0x7feb_352d,
    ensures
        scrambled(nanos) == product ^ (product >> 15u64),
{
    let carry = choose|carry: int| #[trigger] (carry * 0x1_0000_0000_0000_0000) + product == folded
        * 0x7feb_352d;
    let m: int = 0x1_0000_0000_0000_0000;
    vstd::arithmetic::div_mod::lemma_mod_multiples_vanish(carry, product as int, m);
    vstd::arithmetic::div_mod::lemma_small_mod(product as nat, m as nat);
}

} // verus!

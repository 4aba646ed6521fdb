//! Frame timing, the time of day and the pseudo-random generator behind the
//! pet's choices (an xorshift sequence seeded from the clock).

use vstd::prelude::*;

verus! {

/// Milliseconds between two animation frames.
pub const FRAME_MS: u32 = 40;

/// Initial generator state before seeding.
pub const DEFAULT_SEED: u64 = 0x9E3779B97F4A7C15;

/// One step of the xorshift generator (shifts 13, 7, 17).
pub open spec fn xorshift(x: u64) -> u64 {
    let a = x ^ (x << 13u64);
    let b = a ^ (a >> 7u64);
    b ^ (b << 17u64)
}

/// Advances the generator state `seed` by one step and returns the new state.
pub fn next_rand(seed: &mut u64) -> (r: u64)
    ensures
        r == xorshift(*old(seed)),
        *final(seed) == r,
{
    let mut x = *seed;
    x ^= x << 13u64;
    x ^= x >> 7u64;
    x ^= x << 17u64;
    *seed = x;
    x
}

/// The generator never reaches zero from a non-zero state, so it never stalls.
pub proof fn xorshift_keeps_nonzero(x: u64)
    requires
        x != 0,
    ensures
        xorshift(x) != 0,
{
    let a = x ^ (x << 13u64);
    let b = a ^ (a >> 7u64);
    assert(x != 0 ==> (x ^ (x << 13u64)) != 0) by (bit_vector);
    assert(a != 0 ==> (a ^ (a >> 7u64)) != 0) by (bit_vector);
    assert(b != 0 ==> (b ^ (b << 17u64)) != 0) by (bit_vector);
}

/// The seed taken from a clock reading in nanoseconds.
pub fn init_random(nanos: u64) -> (r: u64)
    ensures
        r == nanos ^ DEFAULT_SEED,
{
    nanos ^ DEFAULT_SEED
}

/// Minutes since local midnight of a time given in seconds since the Unix
/// epoch, where the local clock runs `offset_secs` seconds ahead of UTC
/// (negative west of Greenwich); earlier times count back from midnight.
pub fn now_minutes(secs: i64, offset_secs: i32) -> (r: u32)
    ensures
        r == ((secs + offset_secs) % 86400) / 60,
        r < 1440,
{
    let t: i128 = secs as i128 + offset_secs as i128;
    let d = match t.checked_rem_euclid(86400) {
        Some(d) => d,
        None => 0,
    };
    (d / 60) as u32
}

} // verus!

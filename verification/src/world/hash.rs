//! Position hashes: the same seed and position give the same value everywhere.

use vstd::prelude::*;

verus! {

/// The output of one round of the 64-bit splitmix generator.
pub open spec fn spec_splitmix64(x: u64) -> u64 {
    let a = x.wrapping_add(0x9e37_79b9_7f4a_7c15);
    let b = (a ^ (a >> 30)).wrapping_mul(0xbf58_476d_1ce4_e5b9);
    let c = (b ^ (b >> 27)).wrapping_mul(0x94d0_49bb_1331_11eb);
    c ^ (c >> 31)
}

/// The hash of a position: one round per coordinate.
pub open spec fn spec_hash64(x: i64, y: i64, z: i64, seed: u64) -> u64 {
    let a = seed.wrapping_add(0x9e37_79b9_7f4a_7c15);
    let b = spec_splitmix64(a.wrapping_add(x as u64).wrapping_mul(0xbf58_476d_1ce4_e5b9));
    let c = spec_splitmix64(b.wrapping_add(y as u64).wrapping_mul(0x94d0_49bb_1331_11eb));
    spec_splitmix64(c.wrapping_add(z as u64).wrapping_mul(0xda94_9d13_b7dd_3787))
}

/// The hash of a position as a fraction of one, in units of 2^-53.
pub open spec fn spec_hash53(x: i64, y: i64, z: i64, seed: u64) -> u64 {
    spec_hash64(x, y, z, seed) >> 11
}

/// One round of the 64-bit splitmix generator.
pub fn splitmix64(x: u64) -> (r: u64)
    ensures
        r == spec_splitmix64(x),
{
    let a: u64 = x.wrapping_add(0x9e37_79b9_7f4a_7c15);
    let b: u64 = (a ^ (a >> 30)).wrapping_mul(0xbf58_476d_1ce4_e5b9);
    let c: u64 = (b ^ (b >> 27)).wrapping_mul(0x94d0_49bb_1331_11eb);
    c ^ (c >> 31)
}

/// The hash of a position.
pub fn hash64(x: i64, y: i64, z: i64, seed: u64) -> (r: u64)
    ensures
        r == spec_hash64(x, y, z, seed),
{
    let mut h: u64 = seed.wrapping_add(0x9e37_79b9_7f4a_7c15);
    h = splitmix64(h.wrapping_add(x as u64).wrapping_mul(0xbf58_476d_1ce4_e5b9));
    h = splitmix64(h.wrapping_add(y as u64).wrapping_mul(0x94d0_49bb_1331_11eb));
    splitmix64(h.wrapping_add(z as u64).wrapping_mul(0xda94_9d13_b7dd_3787))
}

/// The hash of a position as a fraction of one, in units of 2^-53.
pub fn hash53(x: i64, y: i64, z: i64, seed: u64) -> (r: u64)
    ensures
        r == spec_hash53(x, y, z, seed),
        r < 0x20_0000_0000_0000,
{
    let h: u64 = hash64(x, y, z, seed);
    assert(h >> 11 < 0x20_0000_0000_0000) by (bit_vector);
    h >> 11
}

/// The state of the generator after some rounds.
pub open spec fn round_of(state: u64, n: nat) -> u64
    decreases n,
{
    if n == 0 {
        state
    } else {
        spec_splitmix64(round_of(state, (n - 1) as nat))
    }
}

/// The seeds of the noise channels of a world: one round each, cut down to 31 bits.
/// The mark tells groups of channels apart.
pub fn noise_seeds(seed: u64, mark: u64, count: usize) -> (r: Vec<i32>)
    ensures
        r@.len() == count,
        forall|i: int|
            0 <= i < count ==> #[trigger] r@[i] == round_of(
                spec_splitmix64(seed ^ mark),
                (i + 1) as nat,
            ) & 0x7fff_ffff,
{
    let mut out: Vec<i32> = Vec::new();
    let ghost start = spec_splitmix64(seed ^ mark);
    let mut state: u64 = splitmix64(seed ^ mark);
    while out.len() < count
        invariant
            out@.len() <= count,
            state == round_of(start, out@.len()),
            forall|i: int|
                0 <= i < out@.len() ==> #[trigger] out@[i] == round_of(start, (i + 1) as nat)
                    & 0x7fff_ffff,
        decreases count - out@.len(),
    {
        state = splitmix64(state);
        let low: u64 = state & 0x7fff_ffff;
        assert(low <= 0x7fff_ffff) by (bit_vector)
            requires
                low == state & 0x7fff_ffff,
        ;
        out.push(low as i32);
    }
    out
}

} // verus!

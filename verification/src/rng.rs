//! Deterministic pseudo-random numbers for the initial node placement.
//!
//! The engine must reproduce a layout exactly from its seed, so the generator
//! is part of the verified library: splitmix64, a 64-bit generator whose whole
//! behaviour is a function of the seed.
use vstd::prelude::*;

verus! {

/// Increment added to the generator state before each draw.
pub const GOLDEN_GAMMA: u64 = 0x9E3779B97F4A7C15;

/// The output mixing rounds of splitmix64.
pub open spec fn mix64(z0: u64) -> u64 {
    let z1 = (z0 ^ (z0 >> 30)).wrapping_mul(0xBF58476D1CE4E5B9);
    let z2 = (z1 ^ (z1 >> 27)).wrapping_mul(0x94D049BB133111EB);
    z2 ^ (z2 >> 31)
}

/// Generator state after `i` draws from `seed`.
pub open spec fn sm_state(seed: u64, i: nat) -> u64
    decreases i,
{
    if i == 0 {
        seed
    } else {
        sm_state(seed, (i - 1) as nat).wrapping_add(GOLDEN_GAMMA)
    }
}

/// The value of draw number `i` (counted from 0) from `seed`.
pub open spec fn sm_draw(seed: u64, i: nat) -> u64 {
    mix64(sm_state(seed, i + 1))
}

/// Advance the generator once: new state and the drawn value.
pub fn sm_next(state: u64) -> (r: (u64, u64))
    ensures
        r.0 == state.wrapping_add(GOLDEN_GAMMA),
        r.1 == mix64(r.0),
{
    let s = state.wrapping_add(GOLDEN_GAMMA);
    let z1 = (s ^ (s >> 30)).wrapping_mul(0xBF58476D1CE4E5B9);
    let z2 = (z1 ^ (z1 >> 27)).wrapping_mul(0x94D049BB133111EB);
    (s, z2 ^ (z2 >> 31))
}

/// A draw folded into `[-half, half]`, uniformly over `2 * half + 1` values.
pub open spec fn coord_of(z: u64, half: int) -> int {
    (z as int) % (2 * half + 1) - half
}

/// Fold a raw draw into the symmetric range `[-half, half]`.
pub fn fold_coord(z: u64, half: i64) -> (x: i64)
    requires
        0 <= half <= 0x1_0000_0000,
    ensures
        x as int == coord_of(z, half as int),
        -half <= x <= half,
{
    let span: u64 = (2 * half + 1) as u64;
    let v: u64 = z % span;
    (v as i64) - half
}

} // verus!

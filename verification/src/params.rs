//! City layout parameters that are whole numbers: which lattice lines are avenues,
//! how blocks are numbered, and the seeds of the per-subsystem random streams.

use vstd::prelude::*;
use vstd::wrapping::u64_specs;

use crate::noise::GOLDEN64;
use crate::rng::{spec_seeded, Rng};

verus! {

/// Salt of the zoning stream.
pub const ZONE_SALT: u64 = 0x20_1F;

/// Base salt of the per-block streams.
pub const BLOCK_SALT: u64 = 0xB10C_5EED;

/// Distance of street line `i` from the middle line `grid / 2`.
pub open spec fn spec_line_offset(grid: usize, i: usize) -> int {
    let m = grid / 2;
    if i > m {
        i - m
    } else {
        m - i
    }
}

/// Street line `i` is an avenue when its distance from the middle line is a multiple of
/// `avenue_every` (taken as at least 1).
pub open spec fn spec_is_avenue(grid: usize, avenue_every: usize, i: usize) -> bool {
    let step = if avenue_every > 1 {
        avenue_every as int
    } else {
        1int
    };
    spec_line_offset(grid, i) % step == 0
}

/// True when street line `i` (of `grid + 1`) is an avenue. The middle line `grid / 2`
/// always is one, so the city has a grand central boulevard; the pattern mirrors about
/// it over lines `0..=2 * (grid / 2)`, i.e. over all lines only when `grid` is even.
pub fn is_avenue(grid: usize, avenue_every: usize, i: usize) -> (r: bool)
    ensures
        r == spec_is_avenue(grid, avenue_every, i),
{
    let step = if avenue_every > 1 {
        avenue_every
    } else {
        1
    };
    let m = grid / 2;
    let d = if i > m {
        i - m
    } else {
        m - i
    };
    d % step == 0
}

/// The middle line is an avenue, and avenues mirror about it for every line whose mirror
/// image is a line too.
pub proof fn lemma_avenues_symmetric(grid: usize, avenue_every: usize, i: usize)
    requires
        i <= 2 * (grid / 2),
    ensures
        spec_is_avenue(grid, avenue_every, grid / 2),
        spec_is_avenue(grid, avenue_every, i) == spec_is_avenue(
            grid,
            avenue_every,
            (2 * (grid / 2) - i) as usize,
        ),
{
    let m = grid / 2;
    let j = (2 * m - i) as usize;
    assert(spec_line_offset(grid, j) == spec_line_offset(grid, i));
    assert(spec_line_offset(grid, m) == 0);
    let step = if avenue_every > 1 {
        avenue_every as nat
    } else {
        1nat
    };
    vstd::arithmetic::div_mod::lemma_small_mod(0nat, step);
}

/// Seed of the sub-stream `salt` of a city generated from `seed`.
pub open spec fn spec_stream_seed(seed: u64, salt: u64) -> u64 {
    u64_specs::wrapping_mul(seed, GOLDEN64) ^ salt
}

/// Deterministic sub-stream for one subsystem, so adding a new random consumer elsewhere
/// cannot perturb an existing subsystem's output.
pub fn stream(seed: u64, salt: u64) -> (r: Rng)
    ensures
        r@ == spec_seeded(spec_stream_seed(seed, salt)),
{
    Rng::new(seed.wrapping_mul(GOLDEN64) ^ salt)
}

/// Distinct salts give distinctly seeded sub-streams of one city seed.
pub proof fn lemma_stream_salts_distinct(seed: u64, s1: u64, s2: u64)
    requires
        s1 != s2,
    ensures
        spec_seeded(spec_stream_seed(seed, s1)) != spec_seeded(spec_stream_seed(seed, s2)),
{
    let m = u64_specs::wrapping_mul(seed, GOLDEN64);
    assert((m ^ s1) ^ GOLDEN64 == (m ^ s2) ^ GOLDEN64 ==> s1 == s2) by (bit_vector);
}

/// Salt of the stream of the `index`-th block (row by row).
pub fn block_salt(index: u32) -> (r: u64)
    ensures
        r == BLOCK_SALT ^ u64_specs::wrapping_mul(index as u64, GOLDEN64),
{
    BLOCK_SALT ^ (index as u64).wrapping_mul(GOLDEN64)
}

/// Different blocks draw from differently seeded streams.
pub proof fn lemma_block_salts_distinct(i: u32, j: u32)
    requires
        i != j,
    ensures
        BLOCK_SALT ^ u64_specs::wrapping_mul(i as u64, GOLDEN64) != BLOCK_SALT
            ^ u64_specs::wrapping_mul(j as u64, GOLDEN64),
{
    let a = u64_specs::wrapping_mul(i as u64, GOLDEN64);
    let b = u64_specs::wrapping_mul(j as u64, GOLDEN64);
    assert(BLOCK_SALT ^ a == BLOCK_SALT ^ b ==> a == b) by (bit_vector);
    if a == b {
        crate::noise::lemma_mul_cancel_u64(i as u64, j as u64, GOLDEN64, 0xf1de_83e1_9937_733d);
    }
}

/// Position of block `(ix, iz)` in the row-by-row block list of a `grid x grid` city, or
/// `None` off the grid.
pub fn block_slot(grid: usize, ix: usize, iz: usize) -> (r: Option<usize>)
    requires
        grid * grid <= usize::MAX,
    ensures
        (ix < grid && iz < grid) ==> r == Some((ix + iz * grid) as usize),
        !(ix < grid && iz < grid) ==> r.is_none(),
        r matches Some(k) ==> k < grid * grid,
{
    crate::roads::junction_slot(grid, ix, iz)
}

} // verus!

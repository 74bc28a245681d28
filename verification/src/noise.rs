//! Integer lattice hashes behind the procedural noise fields.

use vstd::prelude::*;
use vstd::wrapping::u32_specs;
use vstd::wrapping::u64_specs;
use vstd::arithmetic::div_mod::{
    lemma_add_mod_noop, lemma_mul_mod_noop_left, lemma_mul_mod_noop_right, lemma_small_mod,
};
use vstd::arithmetic::mul::{lemma_mul_is_associative, lemma_mul_is_distributive_add_other_way};

verus! {

/// Multiplier that spreads the stream lane of a seeded noise field.
pub const LANE_SPREAD: u32 = 0x9e37_79b9;

/// First multiplier of the 32-bit avalanche.
pub const MUT32_K1: u32 = 0x7feb_352d;
/// Second multiplier of the 32-bit avalanche.
pub const MUT32_K2: u32 = 0x846c_a68b;
/// First multiplier of the splitmix64 finaliser.
pub const MIX64_K1: u64 = 0xBF58_476D_1CE4_E5B9;
/// Second multiplier of the splitmix64 finaliser.
pub const MIX64_K2: u64 = 0x94D0_49BB_1331_11EB;
/// The 64-bit golden-ratio increment.
pub const GOLDEN64: u64 = 0x9E37_79B9_7F4A_7C15;
/// Multiplier that spreads the third lattice coordinate.
pub const Z_SPREAD: u64 = 0xD6E8_F962_FD41_7C0D;

/// The 32-bit avalanche: xor-shift, multiply, xor-shift, multiply, xor-shift.
pub open spec fn spec_mut32(x: u32) -> u32 {
    let a = x ^ (x >> 16);
    let b = u32_specs::wrapping_mul(a, MUT32_K1);
    let c = b ^ (b >> 15);
    let d = u32_specs::wrapping_mul(c, MUT32_K2);
    d ^ (d >> 16)
}

/// The splitmix64 finaliser.
pub open spec fn spec_mix64(z: u64) -> u64 {
    let a = u64_specs::wrapping_mul(z ^ (z >> 30), MIX64_K1);
    let b = u64_specs::wrapping_mul(a ^ (a >> 27), MIX64_K2);
    b ^ (b >> 31)
}

pub(crate) fn mut32(x: u32) -> (r: u32)
    ensures
        r == spec_mut32(x),
{
    let mut x = x;
    x ^= x >> 16;
    x = x.wrapping_mul(MUT32_K1);
    x ^= x >> 15;
    x = x.wrapping_mul(MUT32_K2);
    x ^= x >> 16;
    x
}

pub(crate) fn mix64(z: u64) -> (r: u64)
    ensures
        r == spec_mix64(z),
{
    let mut z = z;
    z = (z ^ (z >> 30)).wrapping_mul(MIX64_K1);
    z = (z ^ (z >> 27)).wrapping_mul(MIX64_K2);
    z ^ (z >> 31)
}

/// The 64-bit key packing a 2D lattice point: `x` in the low word, `y` in the high word.
pub open spec fn spec_key2(x: i32, y: i32) -> u64 {
    (x as u32 as u64) | ((y as u32 as u64) << 32u64)
}

/// 64-bit hash of the 2D lattice point `(x, y)`.
pub open spec fn spec_hash2_64(x: i32, y: i32) -> u64 {
    spec_mix64(u64_specs::wrapping_mul(spec_mix64(spec_key2(x, y)), GOLDEN64))
}

/// 64-bit hash of the 3D lattice point `(x, y, z)`.
pub open spec fn spec_hash3_64(x: i32, y: i32, z: i32) -> u64 {
    spec_mix64(spec_hash2_64(x, y) ^ (u64_specs::wrapping_mul(z as u64, Z_SPREAD) | 1u64))
}

/// Hash of a single integer.
pub fn hash11(x: i32) -> (r: u32)
    ensures
        r == spec_mut32(x as u32),
{
    mut32(x as u32)
}

/// Packs `(x, y)` into a 64-bit key and runs two rounds of splitmix64, so the result
/// has a full 64-bit avalanche.
pub fn hash2_64(x: i32, y: i32) -> (r: u64)
    ensures
        r == spec_hash2_64(x, y),
{
    let key = (x as u32 as u64) | ((y as u32 as u64) << 32u64);
    mix64(mix64(key).wrapping_mul(GOLDEN64))
}

/// Hash of a 2D lattice point: the low 32 bits of [`hash2_64`].
pub fn hash2(x: i32, y: i32) -> (r: u32)
    ensures
        r == spec_hash2_64(x, y) as u32,
{
    hash2_64(x, y) as u32
}

/// Hash of a 3D lattice point: the low 32 bits of [`hash3_64`].
pub fn hash3(x: i32, y: i32, z: i32) -> (r: u32)
    ensures
        r == spec_hash3_64(x, y, z) as u32,
{
    hash3_64(x, y, z) as u32
}

/// 64-bit 3D lattice hash.
pub fn hash3_64(x: i32, y: i32, z: i32) -> (r: u64)
    ensures
        r == spec_hash3_64(x, y, z),
{
    mix64(hash2_64(x, y) ^ ((z as u64).wrapping_mul(Z_SPREAD) | 1))
}

/// The integral lattice offset behind stream `lane` of a field seeded with `seed`
/// (the noise fields reduce it modulo 4096 to shift their sampling point).
pub fn lane_hash(seed: u32, lane: u32) -> (r: u32)
    ensures
        r == spec_mut32(seed ^ u32_specs::wrapping_mul(lane, LANE_SPREAD)),
{
    mut32(seed ^ lane.wrapping_mul(LANE_SPREAD))
}

/// A seeded 2D noise field. Cheap to copy; carries only the seed.
#[derive(Clone, Copy, Debug, Default, PartialEq, Eq)]
pub struct Noise2 {
    pub seed: u32,
}

impl Noise2 {
    pub fn new(seed: u32) -> (r: Noise2)
        ensures
            r.seed == seed,
    {
        Noise2 { seed }
    }

    /// The hash keyed by integer id `i` behind the field's deterministic per-id random.
    pub fn index_hash(&self, i: u32) -> (r: u32)
        ensures
            r == spec_mut32(i ^ self.seed),
    {
        let v = i ^ self.seed;
        assert(v as i32 as u32 == v) by (bit_vector);
        hash11(v as i32)
    }
}

/// A seeded 3D noise field.
#[derive(Clone, Copy, Debug, Default, PartialEq, Eq)]
pub struct Noise3 {
    pub seed: u32,
}

impl Noise3 {
    pub fn new(seed: u32) -> (r: Noise3)
        ensures
            r.seed == seed,
    {
        Noise3 { seed }
    }
}

/// Multiplying by an invertible constant modulo `2^64` loses nothing.
pub proof fn lemma_mul_cancel_u64(a: u64, b: u64, k: u64, kinv: u64)
    requires
        (k as int * kinv as int) % 0x1_0000_0000_0000_0000int == 1,
        u64_specs::wrapping_mul(a, k) == u64_specs::wrapping_mul(b, k),
    ensures
        a == b,
{
    let m = 0x1_0000_0000_0000_0000int;
    lemma_undo_mul(a as int, k as int, kinv as int, m);
    lemma_undo_mul(b as int, k as int, kinv as int, m);
}

/// Multiplying by an invertible constant modulo `2^32` loses nothing.
pub proof fn lemma_mul_cancel_u32(a: u32, b: u32, k: u32, kinv: u32)
    requires
        (k as int * kinv as int) % 0x1_0000_0000int == 1,
        u32_specs::wrapping_mul(a, k) == u32_specs::wrapping_mul(b, k),
    ensures
        a == b,
{
    let m = 0x1_0000_0000int;
    lemma_undo_mul(a as int, k as int, kinv as int, m);
    lemma_undo_mul(b as int, k as int, kinv as int, m);
}

proof fn lemma_undo_mul(a: int, k: int, kinv: int, m: int)
    requires
        m > 1,
        0 <= a < m,
        (k * kinv) % m == 1,
    ensures
        (((a * k) % m) * kinv) % m == a,
{
    lemma_mul_mod_noop_left(a * k, kinv, m);
    lemma_mul_is_associative(a, k, kinv);
    lemma_mul_mod_noop_right(a, k * kinv, m);
    assert(a * 1 == a);
    lemma_small_mod(a as nat, m as nat);
}

/// The splitmix64 finaliser is a bijection: distinct inputs give distinct outputs.
pub proof fn lemma_mix64_injective(a: u64, b: u64)
    requires
        spec_mix64(a) == spec_mix64(b),
    ensures
        a == b,
{
    let a1 = u64_specs::wrapping_mul(a ^ (a >> 30), MIX64_K1);
    let b1 = u64_specs::wrapping_mul(b ^ (b >> 30), MIX64_K1);
    let a2 = u64_specs::wrapping_mul(a1 ^ (a1 >> 27), MIX64_K2);
    let b2 = u64_specs::wrapping_mul(b1 ^ (b1 >> 27), MIX64_K2);
    assert(a2 ^ (a2 >> 31u64) == b2 ^ (b2 >> 31u64) ==> a2 == b2) by (bit_vector);
    assert((MIX64_K2 as int * 0x3196_42b2_d24d_8ec3int) % 0x1_0000_0000_0000_0000int == 1);
    lemma_mul_cancel_u64(a1 ^ (a1 >> 27), b1 ^ (b1 >> 27), MIX64_K2, 0x3196_42b2_d24d_8ec3);
    assert(a1 ^ (a1 >> 27u64) == b1 ^ (b1 >> 27u64) ==> a1 == b1) by (bit_vector);
    assert((MIX64_K1 as int * 0x96de_1b17_3f11_9089int) % 0x1_0000_0000_0000_0000int == 1);
    lemma_mul_cancel_u64(a ^ (a >> 30), b ^ (b >> 30), MIX64_K1, 0x96de_1b17_3f11_9089);
    assert(a ^ (a >> 30u64) == b ^ (b >> 30u64) ==> a == b) by (bit_vector);
}

/// The 32-bit avalanche is a bijection: distinct inputs give distinct outputs.
pub proof fn lemma_mut32_injective(a: u32, b: u32)
    requires
        spec_mut32(a) == spec_mut32(b),
    ensures
        a == b,
{
    let a1 = u32_specs::wrapping_mul(a ^ (a >> 16), MUT32_K1);
    let b1 = u32_specs::wrapping_mul(b ^ (b >> 16), MUT32_K1);
    let a2 = u32_specs::wrapping_mul(a1 ^ (a1 >> 15), MUT32_K2);
    let b2 = u32_specs::wrapping_mul(b1 ^ (b1 >> 15), MUT32_K2);
    assert(a2 ^ (a2 >> 16u32) == b2 ^ (b2 >> 16u32) ==> a2 == b2) by (bit_vector);
    assert((MUT32_K2 as int * 0x4302_1123int) % 0x1_0000_0000int == 1);
    lemma_mul_cancel_u32(a1 ^ (a1 >> 15), b1 ^ (b1 >> 15), MUT32_K2, 0x4302_1123);
    assert(a1 ^ (a1 >> 15u32) == b1 ^ (b1 >> 15u32) ==> a1 == b1) by (bit_vector);
    assert((MUT32_K1 as int * 0x1d69_e2a5int) % 0x1_0000_0000int == 1);
    lemma_mul_cancel_u32(a ^ (a >> 16), b ^ (b >> 16), MUT32_K1, 0x1d69_e2a5);
    assert(a ^ (a >> 16u32) == b ^ (b >> 16u32) ==> a == b) by (bit_vector);
}

/// [`hash11`] never collides: distinct integers hash to distinct values.
pub proof fn lemma_hash11_injective(x: i32, y: i32)
    requires
        spec_mut32(x as u32) == spec_mut32(y as u32),
    ensures
        x == y,
{
    lemma_mut32_injective(x as u32, y as u32);
    assert(x as u32 == y as u32 ==> x == y) by (bit_vector);
}

/// [`hash2_64`] never collides: distinct lattice points hash to distinct values.
pub proof fn lemma_hash2_64_injective(x1: i32, y1: i32, x2: i32, y2: i32)
    requires
        spec_hash2_64(x1, y1) == spec_hash2_64(x2, y2),
    ensures
        x1 == x2,
        y1 == y2,
{
    let m1 = spec_mix64(spec_key2(x1, y1));
    let m2 = spec_mix64(spec_key2(x2, y2));
    lemma_mix64_injective(u64_specs::wrapping_mul(m1, GOLDEN64), u64_specs::wrapping_mul(m2, GOLDEN64));
    assert((GOLDEN64 as int * 0xf1de_83e1_9937_733dint) % 0x1_0000_0000_0000_0000int == 1);
    lemma_mul_cancel_u64(m1, m2, GOLDEN64, 0xf1de_83e1_9937_733d);
    lemma_mix64_injective(spec_key2(x1, y1), spec_key2(x2, y2));
    assert((x1 as u32 as u64) | ((y1 as u32 as u64) << 32u64) == (x2 as u32 as u64) | ((
    y2 as u32 as u64) << 32u64) ==> x1 == x2 && y1 == y2) by (bit_vector);
}

/// Within one `z` slice, [`hash3_64`] never collides: distinct `(x, y)` give distinct
/// values.
pub proof fn lemma_hash3_64_injective_in_plane(x1: i32, y1: i32, x2: i32, y2: i32, z: i32)
    requires
        spec_hash3_64(x1, y1, z) == spec_hash3_64(x2, y2, z),
    ensures
        x1 == x2,
        y1 == y2,
{
    let c = u64_specs::wrapping_mul(z as u64, Z_SPREAD) | 1u64;
    let h1 = spec_hash2_64(x1, y1);
    let h2 = spec_hash2_64(x2, y2);
    lemma_mix64_injective(h1 ^ c, h2 ^ c);
    assert(h1 ^ c == h2 ^ c ==> h1 == h2) by (bit_vector);
    lemma_hash2_64_injective(x1, y1, x2, y2);
}

/// Two sign-extended `i32` values never differ by the spread's inverse, so the spread
/// of one `z` is never one more than the spread of another.
proof fn lemma_spread_not_adjacent(za: i32, zb: i32)
    ensures
        u64_specs::wrapping_mul(za as u64, Z_SPREAD) + 1 != u64_specs::wrapping_mul(
            zb as u64,
            Z_SPREAD,
        ),
{
    let m = 0x1_0000_0000_0000_0000int;
    let ua = za as u64;
    let ub = zb as u64;
    let ma = u64_specs::wrapping_mul(ua, Z_SPREAD) as int;
    let mb = u64_specs::wrapping_mul(ub, Z_SPREAD) as int;
    if ma + 1 == mb {
        // Undo the spread with its inverse `k`: ub == (ma * k + k) % m == (ua + k) % m.
        let k = 0x4557_82a7_56a5_32c5int;
        assert((Z_SPREAD as int * k) % m == 1);
        lemma_undo_mul(ua as int, Z_SPREAD as int, k, m);
        lemma_undo_mul(ub as int, Z_SPREAD as int, k, m);
        lemma_mul_is_distributive_add_other_way(k, ma, 1);
        lemma_add_mod_noop(ma * k, k, m);
        lemma_small_mod(k as nat, m as nat);
        assert(ub as int == (ua as int + k) % m);
        // A sign-extended `i32` sits within 2^31 of zero, modulo 2^64; `k` is far from
        // both ends.
        assert(ua < 0x8000_0000u64 || ua >= 0xFFFF_FFFF_8000_0000u64) by (bit_vector)
            requires
                ua == za as u64,
        ;
        assert(ub < 0x8000_0000u64 || ub >= 0xFFFF_FFFF_8000_0000u64) by (bit_vector)
            requires
                ub == zb as u64,
        ;
        if ua as int + k < m {
            lemma_small_mod((ua as int + k) as nat, m as nat);
        } else {
            vstd::arithmetic::div_mod::lemma_mod_sub_multiples_vanish((ua as int + k - m) as int, m);
            lemma_small_mod((ua as int + k - m) as nat, m as nat);
        }
    }
}

/// Along one `(x, y)` column, [`hash3_64`] never collides: distinct `z` give distinct
/// values.
pub proof fn lemma_hash3_64_injective_in_column(x: i32, y: i32, z1: i32, z2: i32)
    requires
        spec_hash3_64(x, y, z1) == spec_hash3_64(x, y, z2),
    ensures
        z1 == z2,
{
    let h = spec_hash2_64(x, y);
    let ma = u64_specs::wrapping_mul(z1 as u64, Z_SPREAD);
    let mb = u64_specs::wrapping_mul(z2 as u64, Z_SPREAD);
    lemma_mix64_injective(h ^ (ma | 1u64), h ^ (mb | 1u64));
    assert(h ^ (ma | 1u64) == h ^ (mb | 1u64) ==> ma == mb || ma + 1 == mb || mb + 1 == ma)
        by (bit_vector);
    if ma + 1 == mb {
        lemma_spread_not_adjacent(z1, z2);
    } else if mb + 1 == ma {
        lemma_spread_not_adjacent(z2, z1);
    } else {
        assert((Z_SPREAD as int * 0x4557_82a7_56a5_32c5int) % 0x1_0000_0000_0000_0000int == 1);
        lemma_mul_cancel_u64(z1 as u64, z2 as u64, Z_SPREAD, 0x4557_82a7_56a5_32c5);
        assert(z1 as u64 == z2 as u64 ==> z1 == z2) by (bit_vector);
    }
}

} // verus!

//! The seeded random stream every generation step draws from.
//!
//! A splitmix64 generator: 64 bits of state, advanced by the golden-ratio increment and
//! finalised by [`spec_mix64`]. Every draw is a pure function of the state, so a city
//! regenerated from the same seed is identical.

use vstd::prelude::*;
use vstd::wrapping::u64_specs;

use crate::noise::{mix64, spec_mix64, GOLDEN64};

verus! {

broadcast use vstd::seq_lib::to_multiset_update;

/// Multiplier that derives a sub-stream seed from the parent state.
pub const SUB_STREAM: u64 = 0x2545_F491_4F6C_DD1D;

/// Seed used by [`Rng::default`].
pub const DEFAULT_SEED: u64 = 0x1234_ABCD;

/// State of a generator freshly created from `seed`.
pub open spec fn spec_seeded(seed: u64) -> u64 {
    seed ^ GOLDEN64
}

/// State after one draw from state `s`.
pub open spec fn spec_advance(s: u64) -> u64 {
    u64_specs::wrapping_add(s, GOLDEN64)
}

/// The 64-bit value the next draw from state `s` yields.
pub open spec fn spec_output(s: u64) -> u64 {
    spec_mix64(spec_advance(s))
}

/// The 24 high bits of the next draw: the numerator of a uniform draw in `[0, 1)`
/// with denominator `2^24`.
pub open spec fn spec_unit_bits(s: u64) -> u32 {
    (spec_output(s) >> 40) as u32
}

/// Result and next state of [`Rng::below`] from state `s`.
pub open spec fn spec_below(s: u64, n: u32) -> (u32, u64) {
    if n == 0 {
        (0u32, s)
    } else {
        ((spec_output(s) % (n as u64)) as u32, spec_advance(s))
    }
}

/// Result and next state of [`Rng::index`] from state `s`.
pub open spec fn spec_index(s: u64, n: usize) -> (usize, u64) {
    let (v, t) = spec_below(s, n as u32);
    (v as usize, t)
}

/// Result and next state of [`Rng::int_range`] from state `s`.
pub open spec fn spec_int_range(s: u64, lo: i32, hi: i32) -> (i32, u64) {
    if hi <= lo {
        (lo, s)
    } else {
        let (v, t) = spec_below(s, (hi - lo + 1) as u32);
        ((lo + v) as i32, t)
    }
}

/// `xs` with the elements at `i` and `j` exchanged.
pub open spec fn spec_swap<T>(xs: Seq<T>, i: int, j: int) -> Seq<T> {
    xs.update(i, xs[j]).update(j, xs[i])
}

/// Fisher–Yates steps `i, i - 1, ..., 1` from state `s`: step `k` swaps slot `k` with
/// slot [`spec_index`]`(k + 1)`. Yields the final state and sequence.
pub open spec fn spec_shuffle_steps<T>(s: u64, xs: Seq<T>, i: nat) -> (u64, Seq<T>)
    decreases i,
{
    if i == 0 {
        (s, xs)
    } else {
        let (j, t) = spec_index(s, (i + 1) as usize);
        spec_shuffle_steps(t, spec_swap(xs, i as int, j as int), (i - 1) as nat)
    }
}

/// Final state and sequence of a full in-place shuffle of `xs` from state `s`.
pub open spec fn spec_shuffle<T>(s: u64, xs: Seq<T>) -> (u64, Seq<T>) {
    if xs.len() == 0 {
        (s, xs)
    } else {
        spec_shuffle_steps(s, xs, (xs.len() - 1) as nat)
    }
}

/// Exchanging two in-range slots keeps the multiset of elements.
pub proof fn lemma_swap_permutes<T>(xs: Seq<T>, i: int, j: int)
    requires
        0 <= i < xs.len(),
        0 <= j < xs.len(),
    ensures
        spec_swap(xs, i, j).to_multiset() =~= xs.to_multiset(),
        spec_swap(xs, i, j).len() == xs.len(),
{
    broadcast use vstd::multiset::group_multiset_axioms, vstd::seq_lib::group_to_multiset_ensures;

    if i == j {
        assert(spec_swap(xs, i, j) =~= xs);
    } else {
        let m = xs.to_multiset();
        let s1 = xs.update(i, xs[j]);
        assert(s1[j] == xs[j]);
        assert(xs.contains(xs[i]));
        assert(m.count(xs[i]) > 0);
        let m1 = m.insert(xs[j]).remove(xs[i]);
        assert(s1.to_multiset() == m1);
        let m2 = m1.insert(xs[i]).remove(xs[j]);
        assert(s1.update(j, xs[i]).to_multiset() == m2);
        assert(m2 =~= m);
    }
}

/// Every Fisher–Yates run over in-range slots is a permutation.
pub proof fn lemma_shuffle_steps_permutes<T>(s: u64, xs: Seq<T>, i: nat)
    requires
        i < xs.len(),
    ensures
        spec_shuffle_steps(s, xs, i).1.to_multiset() =~= xs.to_multiset(),
        spec_shuffle_steps(s, xs, i).1.len() == xs.len(),
    decreases i,
{
    if i > 0 {
        let (j, t) = spec_index(s, (i + 1) as usize);
        lemma_index_bounded(s, (i + 1) as usize);
        lemma_swap_permutes(xs, i as int, j as int);
        lemma_shuffle_steps_permutes(t, spec_swap(xs, i as int, j as int), (i - 1) as nat);
    }
}

/// A shuffle only reorders: the result is a permutation of its input.
pub proof fn lemma_shuffle_permutes<T>(s: u64, xs: Seq<T>)
    ensures
        spec_shuffle(s, xs).1.to_multiset() =~= xs.to_multiset(),
        spec_shuffle(s, xs).1.len() == xs.len(),
{
    if xs.len() > 0 {
        lemma_shuffle_steps_permutes(s, xs, (xs.len() - 1) as nat);
    }
}

/// State after `k` draws starting from state `s`.
pub open spec fn spec_advance_n(s: u64, k: nat) -> u64
    decreases k,
{
    if k == 0 {
        s
    } else {
        spec_advance_n(spec_advance(s), (k - 1) as nat)
    }
}

/// Fisher–Yates steps `i` down to 1 draw exactly once each and never touch the slots
/// above `i`.
proof fn lemma_shuffle_steps_facts<T>(s: u64, xs: Seq<T>, i: nat)
    requires
        i < xs.len(),
        xs.len() <= u32::MAX,
    ensures
        spec_shuffle_steps(s, xs, i).0 == spec_advance_n(s, i),
        spec_shuffle_steps(s, xs, i).1.len() == xs.len(),
        forall|p: int| i < p < xs.len() ==> #[trigger] spec_shuffle_steps(s, xs, i).1[p] == xs[p],
    decreases i,
{
    if i > 0 {
        let (j, t) = spec_index(s, (i + 1) as usize);
        lemma_index_bounded(s, (i + 1) as usize);
        assert(((i + 1) as usize) as u32 == i + 1);
        assert(t == spec_advance(s));
        let ys = spec_swap(xs, i as int, j as int);
        lemma_shuffle_steps_facts(t, ys, (i - 1) as nat);
        assert forall|p: int| i < p < xs.len() implies #[trigger] spec_shuffle_steps(
            s,
            xs,
            i,
        ).1[p] == xs[p] by {
            assert(spec_shuffle_steps(t, ys, (i - 1) as nat).1[p] == ys[p]);
        }
    }
}

/// What a shuffle of `n` slots (`1 <= n <= u32::MAX`) does with the stream and the last
/// slot: it consumes exactly `n - 1` draws, and the last slot receives the element at
/// the first draw modulo `n`, which no later step moves. For two slots: the two are
/// exchanged exactly when the first draw is even.
pub proof fn lemma_shuffle_draws<T>(s: u64, xs: Seq<T>)
    requires
        1 <= xs.len() <= u32::MAX,
    ensures
        spec_shuffle(s, xs).0 == spec_advance_n(s, (xs.len() - 1) as nat),
        xs.len() >= 2 ==> spec_shuffle(s, xs).1[xs.len() - 1] == xs[(spec_output(s) % (
        xs.len() as u64)) as int],
        xs.len() == 2 ==> spec_shuffle(s, xs).1 == (if spec_output(s) % 2 == 0 {
            seq![xs[1], xs[0]]
        } else {
            xs
        }),
{
    let n = xs.len();
    let i = (n - 1) as nat;
    lemma_shuffle_steps_facts(s, xs, i);
    if n >= 2 {
        let (j, t) = spec_index(s, n as usize);
        lemma_index_bounded(s, n as usize);
        assert((n as usize) as u32 as u64 == n);
        assert(j as int == (spec_output(s) % (n as u64)) as int);
        let ys = spec_swap(xs, i as int, j as int);
        lemma_shuffle_steps_facts(t, ys, (i - 1) as nat);
        assert(spec_shuffle(s, xs).1[i as int] == ys[i as int]);
        if n == 2 {
            assert(spec_shuffle(s, xs).1 == ys);
            if spec_output(s) % 2 == 0 {
                assert(ys =~= seq![xs[1], xs[0]]);
            } else {
                assert(ys =~= xs);
            }
        }
    }
}

/// [`spec_index`] never reaches `n` (and is 0 when `n` truncates to 0).
pub proof fn lemma_index_bounded(s: u64, n: usize)
    ensures
        spec_index(s, n).0 < n || (n == 0 && spec_index(s, n).0 == 0),
        spec_index(s, n).0 <= n,
{
}

/// Distinct seeds start distinct streams, and distinct salts derive distinct sub-streams
/// from the same parent state.
pub proof fn lemma_seeds_distinct(s1: u64, s2: u64, parent: u64)
    requires
        s1 != s2,
    ensures
        spec_seeded(s1) != spec_seeded(s2),
        spec_seeded(u64_specs::wrapping_mul(parent, SUB_STREAM) ^ s1) != spec_seeded(
            u64_specs::wrapping_mul(parent, SUB_STREAM) ^ s2,
        ),
{
    let m = u64_specs::wrapping_mul(parent, SUB_STREAM);
    assert(s1 ^ GOLDEN64 == s2 ^ GOLDEN64 ==> s1 == s2) by (bit_vector);
    assert((m ^ s1) ^ GOLDEN64 == (m ^ s2) ^ GOLDEN64 ==> s1 == s2) by (bit_vector);
}

/// State after `k` draws from a generator freshly created from `seed`.
pub open spec fn spec_state_after(seed: u64, k: nat) -> u64
    decreases k,
{
    if k == 0 {
        spec_seeded(seed)
    } else {
        spec_advance(spec_state_after(seed, (k - 1) as nat))
    }
}

/// The stream is replayable: after `k` draws from `seed` the state is
/// `(seed ^ GOLDEN64) + k * GOLDEN64` modulo `2^64`, so the `k`-th draw (counting from 0)
/// is a function of the seed and `k` alone, and two generators created from the same
/// seed yield the same value at every position.
pub proof fn lemma_stream_replays(seed: u64, k: nat)
    ensures
        spec_state_after(seed, k) as int == (spec_seeded(seed) as int + k * GOLDEN64 as int)
            % 0x1_0000_0000_0000_0000int,
        spec_output(spec_state_after(seed, k)) == spec_mix64(
            ((spec_seeded(seed) as int + (k + 1) * GOLDEN64 as int) % 0x1_0000_0000_0000_0000int)
                as u64,
        ),
        spec_unit_bits(spec_state_after(seed, k)) == (spec_mix64(
            ((spec_seeded(seed) as int + (k + 1) * GOLDEN64 as int) % 0x1_0000_0000_0000_0000int)
                as u64,
        ) >> 40) as u32,
    decreases k,
{
    let m = 0x1_0000_0000_0000_0000int;
    let a = spec_seeded(seed) as int;
    let g = GOLDEN64 as int;
    if k == 0 {
        vstd::arithmetic::div_mod::lemma_small_mod(a as nat, m as nat);
    } else {
        lemma_stream_replays(seed, (k - 1) as nat);
        let prev = spec_state_after(seed, (k - 1) as nat) as int;
        assert(a + (k - 1) * g >= 0) by (nonlinear_arith)
            requires
                a >= 0,
                g >= 0,
                k >= 1,
        ;
        vstd::arithmetic::div_mod::lemma_add_mod_noop(a + (k - 1) * g, g, m);
        vstd::arithmetic::div_mod::lemma_small_mod(g as nat, m as nat);
        assert(a + (k - 1) * g + g == a + k * g) by (nonlinear_arith);
        // One more draw adds the increment modulo 2^64.
        assert(spec_advance(prev as u64) as int == (prev + g) % m) by {
            if prev + g >= m {
                vstd::arithmetic::div_mod::lemma_mod_sub_multiples_vanish(prev + g - m, m);
                vstd::arithmetic::div_mod::lemma_small_mod((prev + g - m) as nat, m as nat);
            } else {
                vstd::arithmetic::div_mod::lemma_small_mod((prev + g) as nat, m as nat);
            }
        }
    }
    // The next draw advances once more.
    let cur = spec_state_after(seed, k) as int;
    assert(a + k * g >= 0) by (nonlinear_arith)
        requires
            a >= 0,
            g >= 0,
            k >= 0,
    ;
    vstd::arithmetic::div_mod::lemma_add_mod_noop(a + k * g, g, m);
    vstd::arithmetic::div_mod::lemma_small_mod(g as nat, m as nat);
    assert(a + k * g + g == a + (k + 1) * g) by (nonlinear_arith);
    assert(spec_advance(cur as u64) as int == (cur + g) % m) by {
        if cur + g >= m {
            vstd::arithmetic::div_mod::lemma_mod_sub_multiples_vanish(cur + g - m, m);
            vstd::arithmetic::div_mod::lemma_small_mod((cur + g - m) as nat, m as nat);
        } else {
            vstd::arithmetic::div_mod::lemma_small_mod((cur + g) as nat, m as nat);
        }
    }
}

/// Splitmix64 generator with 64 bits of state.
#[derive(Clone, Debug)]
pub struct Rng {
    state: u64,
}

impl View for Rng {
    type V = u64;

    closed spec fn view(&self) -> u64 {
        self.state
    }
}

impl Rng {
    pub fn new(seed: u64) -> (r: Rng)
        ensures
            r@ == spec_seeded(seed),
    {
        Rng { state: seed ^ GOLDEN64 }
    }

    /// One raw 64-bit draw.
    pub fn next_u64(&mut self) -> (r: u64)
        ensures
            r == spec_output(old(self)@),
            final(self)@ == spec_advance(old(self)@),
    {
        self.state = self.state.wrapping_add(GOLDEN64);
        mix64(self.state)
    }

    /// The top 24 bits of one draw. A uniform draw in `[0, 1)` is this value divided by
    /// `2^24`, which every IEEE-754 `f32` represents exactly.
    pub fn unit_bits(&mut self) -> (r: u32)
        ensures
            r == spec_unit_bits(old(self)@),
            r < 0x100_0000,
            final(self)@ == spec_advance(old(self)@),
    {
        let v = self.next_u64();
        assert((v >> 40u64) < 0x100_0000) by (bit_vector);
        (v >> 40) as u32
    }

    /// Integer in `0..n`; 0 without consuming a draw when `n == 0`.
    pub fn below(&mut self, n: u32) -> (r: u32)
        ensures
            (r, final(self)@) == spec_below(old(self)@, n),
            n > 0 ==> r < n,
            n == 0 ==> r == 0,
    {
        if n == 0 {
            0
        } else {
            (self.next_u64() % n as u64) as u32
        }
    }

    /// Index in `0..n` for a collection of length `n` (the length is taken modulo `2^32`).
    pub fn index(&mut self, n: usize) -> (r: usize)
        ensures
            (r, final(self)@) == spec_index(old(self)@, n),
            r < n || (r == 0 && n as u32 == 0),
    {
        self.below(n as u32) as usize
    }

    /// Integer in `lo..=hi`; `lo` without consuming a draw when `hi <= lo`.
    pub fn int_range(&mut self, lo: i32, hi: i32) -> (r: i32)
        requires
            hi <= lo || hi - lo + 1 <= i32::MAX,
        ensures
            (r, final(self)@) == spec_int_range(old(self)@, lo, hi),
            lo <= hi ==> lo <= r <= hi,
            hi <= lo ==> r == lo,
    {
        if hi <= lo {
            lo
        } else {
            lo + self.below((hi - lo + 1) as u32) as i32
        }
    }

    /// Picks one element, if the slice is non-empty.
    pub fn pick<'a, T>(&mut self, xs: &'a [T]) -> (r: Option<&'a T>)
        ensures
            xs@.len() == 0 ==> r.is_none() && final(self)@ == old(self)@,
            xs@.len() > 0 ==> ({
                let (i, t) = spec_index(old(self)@, xs@.len() as usize);
                &&& r == Some(&xs@[i as int])
                &&& final(self)@ == t
            }),
    {
        if xs.len() == 0 {
            None
        } else {
            let i = self.index(xs.len());
            Some(&xs[i])
        }
    }

    /// Fisher–Yates shuffle in place.
    pub fn shuffle<T>(&mut self, xs: &mut [T])
        ensures
            (final(self)@, final(xs)@) == spec_shuffle(old(self)@, old(xs)@),
            final(xs)@.to_multiset() =~= old(xs)@.to_multiset(),
            final(xs)@.len() == old(xs)@.len(),
            1 <= old(xs)@.len() <= u32::MAX ==> final(self)@ == spec_advance_n(
                old(self)@,
                (old(xs)@.len() - 1) as nat,
            ),
            2 <= old(xs)@.len() <= u32::MAX ==> final(xs)@[old(xs)@.len() - 1] == old(
                xs,
            )@[(spec_output(old(self)@) % (old(xs)@.len() as u64)) as int],
    {
        proof {
            lemma_shuffle_permutes(self@, xs@);
            if 1 <= xs@.len() <= u32::MAX {
                lemma_shuffle_draws(self@, xs@);
            }
        }
        let n = xs.len();
        if n == 0 {
            return;
        }
        let ghost target = spec_shuffle(self@, xs@);
        let mut i = n;
        while i > 1
            invariant
                1 <= i <= n,
                n == xs@.len(),
                spec_shuffle_steps(self@, xs@, (i - 1) as nat) == target,
            decreases i,
        {
            i -= 1;
            let j = self.index(i + 1);
            swap_slots(xs, i, j);
        }
    }

    /// Derives an independent sub-stream; the parent stream is left untouched.
    pub fn sub(&mut self, salt: u64) -> (r: Rng)
        ensures
            r@ == spec_seeded(u64_specs::wrapping_mul(old(self)@, SUB_STREAM) ^ salt),
            final(self)@ == old(self)@,
    {
        Rng::new(self.state.wrapping_mul(SUB_STREAM) ^ salt)
    }
}

impl Default for Rng {
    fn default() -> (r: Rng)
        ensures
            r@ == spec_seeded(DEFAULT_SEED),
    {
        Rng::new(DEFAULT_SEED)
    }
}

/// Trusted: `<[T]>::swap` exchanges the two elements; the std documentation states that it
/// panics only when an index is out of bounds, which `requires` rules out.
#[verifier::external_body]
fn swap_slots<T>(xs: &mut [T], a: usize, b: usize)
    requires
        a < old(xs)@.len(),
        b < old(xs)@.len(),
    ensures
        final(xs)@ == old(xs)@.update(a as int, old(xs)@[b as int]).update(
            b as int,
            old(xs)@[a as int],
        ),
{
    xs.swap(a, b);
}

} // verus!

//! Deterministic train/test split assignment.
//!
//! Each trial partitions the rows with a seeded pseudo-random generator:
//! one 64-bit draw per row, in row order, and the row is a test row exactly
//! when the draw falls in the test band. The generator is the `rand`
//! crate's `StdRng`, pinned to one version, so the whole assignment is a
//! function of the seed alone; `std_rng_stream` names its draw sequence.

use vstd::prelude::*;
use rand::RngCore;
use rand::SeedableRng;

verus! {

#[verifier::external_type_specification]
#[verifier::external_body]
pub struct ExStdRng(rand::rngs::StdRng);

/// The `index`-th 64-bit draw of the `rand` crate's `StdRng` seeded via
/// `seed_from_u64(seed)`. `StdRng` in the pinned version is the ChaCha
/// block cipher with 12 rounds and `seed_from_u64` expands the seed by a
/// fixed arithmetic recurrence, so the draw depends on `seed` and `index`
/// alone.
pub uninterp spec fn std_rng_stream(seed: u64, index: int) -> u64;

/// Whether the draw for a row lands in the test band: the low residue
/// classes `0 .. num` modulo `den`, so a fraction `num / den` of the draw
/// space selects test rows.
pub open spec fn in_test_band(draw: u64, num: u64, den: u64) -> bool
    recommends
        den > 0,
{
    draw % den < num
}

/// The split decision for row `index` under `seed`: `true` means the row
/// is a test row, `false` a training row.
pub open spec fn split_of(seed: u64, index: int, num: u64, den: u64) -> bool
    recommends
        den > 0,
{
    in_test_band(std_rng_stream(seed, index), num, den)
}

/// Relies on `rand::SeedableRng::seed_from_u64` for `StdRng`: it
/// deterministically expands the 64-bit seed into the generator state.
/// Nothing is claimed here; what the seeded generator then yields is
/// stated on `SplitRng::next_u64`.
#[verifier::external_body]
fn seeded_std_rng(seed: u64) -> rand::rngs::StdRng {
    rand::rngs::StdRng::seed_from_u64(seed)
}

/// A seeded deterministic random source for split assignment. It remembers
/// (in ghost state) the seed it was built from and how many draws were
/// made, so the value of every draw is pinned by `std_rng_stream`.
pub struct SplitRng {
    rng: rand::rngs::StdRng,
    seed: Ghost<u64>,
    drawn: Ghost<int>,
}

impl SplitRng {
    /// The seed this source was constructed from.
    pub closed spec fn seed(&self) -> u64 {
        self.seed@
    }

    /// How many draws have been made so far.
    pub closed spec fn drawn(&self) -> int {
        self.drawn@
    }

    /// A fresh source whose draws follow `std_rng_stream(seed, _)` from
    /// index zero.
    pub fn new(seed: u64) -> (r: SplitRng)
        ensures
            r.seed() == seed,
            r.drawn() == 0,
    {
        SplitRng { rng: seeded_std_rng(seed), seed: Ghost(seed), drawn: Ghost(0int) }
    }

    /// Relies on `rand::RngCore::next_u64` for `StdRng`: the generator is
    /// deterministic, so the draw is a function of the seed and of the
    /// number of draws already made, which `std_rng_stream` names.
    #[verifier::external_body]
    pub fn next_u64(&mut self) -> (r: u64)
        ensures
            r == std_rng_stream(old(self).seed(), old(self).drawn()),
            final(self).seed() == old(self).seed(),
            final(self).drawn() == old(self).drawn() + 1,
    {
        self.rng.next_u64()
    }

    /// Draw once and decide whether the current row is a test row.
    pub fn next_is_test(&mut self, num: u64, den: u64) -> (r: bool)
        requires
            den > 0,
        ensures
            r == split_of(old(self).seed(), old(self).drawn(), num, den),
            final(self).seed() == old(self).seed(),
            final(self).drawn() == old(self).drawn() + 1,
    {
        let draw = self.next_u64();
        draw % den < num
    }
}

/// The full train/test assignment for `n` rows under `seed`: entry `i` is
/// `true` exactly when row `i` is a test row. Since the result is pinned
/// to `split_of`, a pure function of the arguments, repeated runs with the
/// same seed give the identical assignment.
pub fn assign_splits(seed: u64, n: usize, num: u64, den: u64) -> (r: Vec<bool>)
    requires
        den > 0,
    ensures
        r@.len() == n,
        forall|i: int| 0 <= i < n ==> r@[i] == split_of(seed, i, num, den),
{
    let mut rng = SplitRng::new(seed);
    let mut r: Vec<bool> = Vec::new();
    let mut i: usize = 0;
    while i < n
        invariant
            0 <= i <= n,
            den > 0,
            rng.seed() == seed,
            rng.drawn() == i,
            r@.len() == i,
            forall|j: int| 0 <= j < i ==> r@[j] == split_of(seed, j, num, den),
        decreases n - i,
    {
        let is_test = rng.next_is_test(num, den);
        r.push(is_test);
        i = i + 1;
    }
    r
}

} // verus!

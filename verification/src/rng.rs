//! The seeded random source, and the draws the library makes from it.
//!
//! A [`SeededRng`] is `rand_chacha::ChaCha8Rng` seeded by
//! `SeedableRng::seed_from_u64`, and its view is the seed together with the
//! draws it has served, in order. ChaCha8 and the integer samplers of
//! `rand` are deterministic and portable, so each draw is a function of the
//! seed and of the draws served before it: the names below stand for those
//! functions. The generator can only be made by [`SeededRng::new`] and
//! advanced by the draws here, so its view is always the history that put
//! it in its state.

use vstd::prelude::*;
use rand::{Rng, SeedableRng};
use rand::seq::SliceRandom;
use rand_chacha::ChaCha8Rng;

verus! {

/// The ChaCha8 generator of `rand_chacha`.
#[verifier::external_type_specification]
#[verifier::external_body]
pub struct ExChaCha8Rng(rand_chacha::ChaCha8Rng);

/// One draw served by a generator: what was asked of it.
#[derive(Debug, Clone, Copy)]
pub enum Draw {
    /// `random_range(0..n)` over `usize`.
    Below(usize),
    /// `random_range(lo..hi)` over `u32`.
    In(u32, u32),
    /// `random_range(lo..=hi)` over `u32`.
    Between(u32, u32),
    /// `random_ratio(1, 2)`.
    Coin,
    /// `shuffle` of a slice of this length.
    Shuffle(usize),
}

/// What `random_range(0..n)` gives on a ChaCha8 generator seeded with
/// `seed` that has served `served`.
pub uninterp spec fn drawn_below(seed: u64, served: Seq<Draw>, n: usize) -> usize;

/// What `random_range(lo..hi)` over `u32` gives on a ChaCha8 generator
/// seeded with `seed` that has served `served`.
pub uninterp spec fn drawn_in(seed: u64, served: Seq<Draw>, lo: u32, hi: u32) -> u32;

/// What `random_range(lo..=hi)` over `u32` gives on a ChaCha8 generator
/// seeded with `seed` that has served `served`.
pub uninterp spec fn drawn_between(seed: u64, served: Seq<Draw>, lo: u32, hi: u32) -> u32;

/// What `random_ratio(1, 2)` gives on a ChaCha8 generator seeded with
/// `seed` that has served `served`.
pub uninterp spec fn drawn_coin(seed: u64, served: Seq<Draw>) -> bool;

/// The order `shuffle` leaves `words` in, on a ChaCha8 generator seeded
/// with `seed` that has served `served`.
pub uninterp spec fn shuffled(seed: u64, served: Seq<Draw>, words: Seq<Seq<char>>) -> Seq<Seq<char>>;

/// The state of a generator: its seed and the draws it has served.
pub open spec fn after(st: (u64, Seq<Draw>), d: Draw) -> (u64, Seq<Draw>) {
    (st.0, st.1.push(d))
}

/// A ChaCha8 generator seeded from a `u64`, with the history of its draws.
pub struct SeededRng {
    rng: ChaCha8Rng,
    seed: Ghost<u64>,
    served: Ghost<Seq<Draw>>,
}

impl View for SeededRng {
    type V = (u64, Seq<Draw>);

    closed spec fn view(&self) -> (u64, Seq<Draw>) {
        (self.seed@, self.served@)
    }
}

impl SeededRng {
    /// `ChaCha8Rng::seed_from_u64`: a generator seeded with `seed` that has
    /// served nothing.
    #[verifier::external_body]
    pub fn new(seed: u64) -> (r: SeededRng)
        ensures
            r@ == (seed, Seq::<Draw>::empty()),
    {
        SeededRng { rng: ChaCha8Rng::seed_from_u64(seed), seed: Ghost(seed), served: Ghost(Seq::empty()) }
    }

    /// `Rng::random_range` on `0..n`: a draw below `n`, the one the seed and
    /// the history give. `rand` panics on an empty range, which `requires`
    /// leaves out.
    #[verifier::external_body]
    pub(crate) fn random_below(&mut self, n: usize) -> (i: usize)
        requires
            n > 0,
        ensures
            i < n,
            i == drawn_below(old(self)@.0, old(self)@.1, n),
            final(self)@ == after(old(self)@, Draw::Below(n)),
    {
        let i = self.rng.random_range(0..n);
        self.served = Ghost(self.served@.push(Draw::Below(n)));
        i
    }

    /// `Rng::random_range` on `lo..hi` over `u32`: a draw in the half-open
    /// range, the one the seed and the history give. `rand` panics on an
    /// empty range, which `requires` leaves out.
    #[verifier::external_body]
    pub(crate) fn random_in(&mut self, lo: u32, hi: u32) -> (x: u32)
        requires
            lo < hi,
        ensures
            lo <= x < hi,
            x == drawn_in(old(self)@.0, old(self)@.1, lo, hi),
            final(self)@ == after(old(self)@, Draw::In(lo, hi)),
    {
        let x = self.rng.random_range(lo..hi);
        self.served = Ghost(self.served@.push(Draw::In(lo, hi)));
        x
    }

    /// `Rng::random_range` on `lo..=hi` over `u32`: a draw in the closed
    /// range, the one the seed and the history give. `rand` panics when
    /// `lo > hi`, which `requires` leaves out.
    #[verifier::external_body]
    pub(crate) fn random_between(&mut self, lo: u32, hi: u32) -> (x: u32)
        requires
            lo <= hi,
        ensures
            lo <= x <= hi,
            x == drawn_between(old(self)@.0, old(self)@.1, lo, hi),
            final(self)@ == after(old(self)@, Draw::Between(lo, hi)),
    {
        let x = self.rng.random_range(lo..=hi);
        self.served = Ghost(self.served@.push(Draw::Between(lo, hi)));
        x
    }

    /// `Rng::random_ratio(1, 2)`: a fair coin, the one the seed and the
    /// history give.
    #[verifier::external_body]
    pub(crate) fn coin(&mut self) -> (b: bool)
        ensures
            b == drawn_coin(old(self)@.0, old(self)@.1),
            final(self)@ == after(old(self)@, Draw::Coin),
    {
        let b = self.rng.random_ratio(1, 2);
        self.served = Ghost(self.served@.push(Draw::Coin));
        b
    }
}

/// `SliceRandom::shuffle`: the words come back in the order the seed and
/// the history give, each as often as it went in.
#[verifier::external_body]
pub(crate) fn shuffle_words(words: &mut Vec<&'static str>, rng: &mut SeededRng)
    ensures
        final(words)@.to_multiset() == old(words)@.to_multiset(),
        final(words)@.map_values(|w: &str| w@) == shuffled(old(rng)@.0, old(rng)@.1, old(words)@.map_values(|w: &str| w@)),
        final(rng)@ == after(old(rng)@, Draw::Shuffle(old(words)@.len() as usize)),
{
    let n = words.len();
    words.shuffle(&mut rng.rng);
    rng.served = Ghost(rng.served@.push(Draw::Shuffle(n)));
}

} // verus!

//! The random numbers of the solver, which come from the `rand` crate.
//!
//! The solver owns one generator, seeded once. From it every cell draws a
//! seed of its own when the solver is initialised, and from that seed the
//! cell derives, once, the number that later picks its tile.

use rand::rngs::StdRng;
use rand::{Rng, SeedableRng};
use vstd::prelude::*;

verus! {

/// The first 32-bit integer that a generator seeded with `seed` gives.
pub uninterp spec fn seeded_draw(seed: u64) -> i32;

/// The 64-bit number that a generator seeded with `seed` gives as its draw
/// number `position`, counting from 0, when every draw is of 64 bits.
pub uninterp spec fn engine_stream(seed: u64, position: nat) -> u64;

/// `StdRng::seed_from_u64` followed by one `random::<i32>()`: a fresh
/// generator is made from the seed and its first 32-bit integer is taken.
/// The generator computes its output from the seed alone.
#[verifier::external_body]
pub(crate) fn draw_for_seed(seed: u64) -> (draw: i32)
    ensures
        draw == seeded_draw(seed),
{
    StdRng::seed_from_u64(seed).random::<i32>()
}

/// `StdRng::seed_from_u64` followed by `random_iter::<u64>()`, of which the
/// first `count` numbers are taken: a fresh generator is made from the
/// seed and gives its first draws of 64 bits, in order.
#[verifier::external_body]
pub(crate) fn draw_seeds(seed: u64, count: usize) -> (values: Vec<u64>)
    ensures
        values.len() == count,
        forall|i: int| 0 <= i < count ==> #[trigger] values[i] == engine_stream(seed, i as nat),
{
    StdRng::seed_from_u64(seed).random_iter::<u64>().take(count).collect()
}

/// `rand::rng().random::<u64>()`: a number from the generator of the
/// current thread, which the operating system seeds. Nothing is known of it.
#[verifier::external_body]
pub(crate) fn fresh_seed() -> u64 {
    rand::rng().random::<u64>()
}

/// The number that picks the tile of a cell, from the draw of the cell's
/// seed: the magnitude of the draw, which is never negative. The one draw
/// without a magnitude of 31 bits, the least integer, gives the greatest.
pub open spec fn rand_value_of_draw(draw: i32) -> i32 {
    if draw == i32::MIN {
        i32::MAX
    } else if draw < 0 {
        (-draw) as i32
    } else {
        draw
    }
}

/// The number that picks the tile of a cell with this seed.
pub open spec fn rand_value(seed: u64) -> i32 {
    rand_value_of_draw(seeded_draw(seed))
}

/// Turns the draw of a seed into the number that picks a tile.
pub fn rand_num_from_draw(draw: i32) -> (value: i32)
    ensures
        value == rand_value_of_draw(draw),
        value >= 0,
{
    if draw == i32::MIN {
        i32::MAX
    } else if draw < 0 {
        -draw
    } else {
        draw
    }
}

/// The number that picks a tile is never negative.
pub proof fn lemma_rand_value_range(seed: u64)
    ensures
        rand_value(seed) >= 0,
{
}

/// The generator of the solver, as what determines its output: the seed
/// that it was made from and the number of draws that were taken from it.
#[derive(Debug, Clone, Copy, PartialEq, Eq, Structural)]
pub struct Engine {
    pub seed: u64,
    pub drawn: usize,
}

impl Engine {
    /// A generator made from the seed, from which nothing has been drawn.
    pub fn from_seed(seed: u64) -> (engine: Engine)
        ensures
            engine.seed == seed,
            engine.drawn == 0,
    {
        Engine { seed, drawn: 0 }
    }

    /// A generator made from a seed that the operating system gives.
    pub fn fresh() -> (engine: Engine)
        ensures
            engine.drawn == 0,
    {
        Engine { seed: fresh_seed(), drawn: 0 }
    }

    /// The numbers that `draw` gives.
    pub open spec fn next_draws(self, count: nat) -> Seq<u64> {
        Seq::new(count, |i: int| engine_stream(self.seed, (self.drawn + i) as nat))
    }

    /// Takes the next `count` draws from the generator. None, with the
    /// generator as it was, where the number of draws would pass what the
    /// machine can count.
    pub fn draw(&mut self, count: usize) -> (values: Option<Vec<u64>>)
        ensures
            final(self).seed == old(self).seed,
            match values {
                Some(drawn) => {
                    &&& old(self).drawn + count <= usize::MAX
                    &&& final(self).drawn == old(self).drawn + count
                    &&& drawn@ == old(self).next_draws(count as nat)
                },
                None => old(self).drawn + count > usize::MAX && final(self).drawn == old(self).drawn,
            },
    {
        let total = match self.drawn.checked_add(count) {
            Some(total) => total,
            None => {
                return None;
            },
        };
        let all = draw_seeds(self.seed, total);
        let mut values: Vec<u64> = Vec::new();
        let mut i: usize = self.drawn;
        while i < total
            invariant
                self.drawn <= i <= total,
                all.len() == total,
                forall|k: int| 0 <= k < total ==> #[trigger] all[k] == engine_stream(self.seed, k as nat),
                values.len() == i - self.drawn,
                forall|k: int|
                    0 <= k < values.len() ==> #[trigger] values[k] == engine_stream(
                        self.seed,
                        (self.drawn + k) as nat,
                    ),
            decreases total - i,
        {
            values.push(all[i]);
            i += 1;
        }
        proof {
            assert(values@ =~= self.next_draws(count as nat));
        }
        self.drawn = total;
        Some(values)
    }
}

} // verus!

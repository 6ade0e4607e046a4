//! The measure by which the solver ranks the cells that are still open.
//!
//! The solver collapses the open cell of least entropy first. It needs the
//! entropies only to compare them, so it keeps each as a key: an unsigned
//! integer that orders as the entropies do. Computing a key from the
//! weights of the tiles that a cell can still be is left to an
//! [`EntropyMeasure`].

use crate::tile_set::{ask_weight, weight_may_be, weight_of, TileSetVirtual};
use crate::wfc_util::TileId;
use vstd::prelude::*;

verus! {

/// A measure of the uncertainty of a choice among weighted alternatives.
///
/// The Shannon entropy of the weights is the intended measure: with
/// `p_i = w_i / sum of w`, the sum of `-p_i * log2(p_i)` over the positive
/// `p_i`, and `log2` of the number of weights where they sum to zero. For a
/// key, take what orders as the entropy does, such as the bit pattern of a
/// non-negative double.
pub trait EntropyMeasure {
    /// The key for a cell that can be tiles of these weights. It is asked
    /// only for two weights or more.
    fn entropy_key(&self, weights: &[i32]) -> u64;
}

/// `key` is something that the measure can return for these weights.
pub open spec fn key_may_be<M: EntropyMeasure>(measure: &M, weights: Seq<i32>, key: u64) -> bool {
    exists|list: &[i32]|
        list@ == weights && #[trigger] call_ensures(M::entropy_key, (measure, list), key)
}

/// The measure answers as a function does: for given weights it has one key.
pub open spec fn measure_is_function<M: EntropyMeasure>(measure: &M) -> bool {
    forall|weights: Seq<i32>, a: u64, b: u64|
        #[trigger] key_may_be(measure, weights, a) && #[trigger] key_may_be(measure, weights, b)
            ==> a == b
}

/// The key of the measure for these weights.
pub open spec fn key_of<M: EntropyMeasure>(measure: &M, weights: Seq<i32>) -> u64 {
    choose|key: u64| key_may_be(measure, weights, key)
}

/// The weights of the given tiles, in order; 0 for an id that names no tile.
pub open spec fn weights_of<EdgeData, T: TileSetVirtual<EdgeData>>(
    tile_set: &T,
    tiles: Seq<TileId>,
) -> Seq<i32> {
    Seq::new(tiles.len(), |i: int| weight_of(tile_set, tiles[i]))
}

/// `weights` is what the tile set can report as the weights of these tiles.
pub open spec fn weights_may_be<EdgeData, T: TileSetVirtual<EdgeData>>(
    tile_set: &T,
    tiles: Seq<TileId>,
    weights: Seq<i32>,
) -> bool {
    &&& weights.len() == tiles.len()
    &&& forall|i: int|
        0 <= i < tiles.len() ==> {
            ||| weight_may_be(tile_set, tiles[i], Some(#[trigger] weights[i]))
            ||| (weights[i] == 0 && weight_may_be(tile_set, tiles[i], None))
        }
}

/// The entropy key of a cell that can still be the given tiles: 0 for one
/// tile or none, else the key of the measure for the weights of the tiles.
pub open spec fn entropy_of<EdgeData, T: TileSetVirtual<EdgeData>, M: EntropyMeasure>(
    tile_set: &T,
    measure: &M,
    possibilities: Seq<TileId>,
) -> u64 {
    if possibilities.len() <= 1 {
        0
    } else {
        key_of(measure, weights_of(tile_set, possibilities))
    }
}

/// `key` is an entropy key that the tile set and the measure can give for these tiles.
pub open spec fn entropy_may_be<EdgeData, T: TileSetVirtual<EdgeData>, M: EntropyMeasure>(
    tile_set: &T,
    measure: &M,
    possibilities: Seq<TileId>,
    key: u64,
) -> bool {
    if possibilities.len() <= 1 {
        key == 0
    } else {
        exists|weights: Seq<i32>| #[trigger]
            weights_may_be(tile_set, possibilities, weights) && key_may_be(measure, weights, key)
    }
}

/// Asks the tile set for the weights of the given tiles.
pub fn gather_weights<EdgeData, T: TileSetVirtual<EdgeData>>(
    tile_set: &T,
    tiles: &Vec<TileId>,
) -> (weights: Vec<i32>)
    ensures
        weights_may_be(tile_set, tiles@, weights@),
        crate::tile_set::answers_are_functions(tile_set) ==> weights@ == weights_of(tile_set, tiles@),
{
    let mut weights: Vec<i32> = Vec::new();
    let mut i: usize = 0;
    while i < tiles.len()
        invariant
            i <= tiles.len(),
            weights.len() == i,
            forall|k: int|
                0 <= k < i ==> {
                    ||| weight_may_be(tile_set, tiles[k], Some(#[trigger] weights[k]))
                    ||| (weights[k] == 0 && weight_may_be(tile_set, tiles[k], None))
                },
            crate::tile_set::answers_are_functions(tile_set) ==> forall|k: int|
                0 <= k < i ==> #[trigger] weights[k] == weight_of(tile_set, tiles[k]),
        decreases tiles.len() - i,
    {
        let weight = ask_weight(tile_set, tiles[i]);
        weights.push(weight);
        i += 1;
    }
    proof {
        if crate::tile_set::answers_are_functions(tile_set) {
            assert(weights@ =~= weights_of(tile_set, tiles@));
        }
    }
    weights
}

/// The entropy key of a cell that can still be the given tiles.
pub fn calculate_entropy<EdgeData, T: TileSetVirtual<EdgeData>, M: EntropyMeasure>(
    tile_set: &T,
    measure: &M,
    possibilities: &Vec<TileId>,
) -> (key: u64)
    ensures
        entropy_may_be(tile_set, measure, possibilities@, key),
        possibilities.len() <= 1 ==> key == 0,
        crate::tile_set::answers_are_functions(tile_set) && measure_is_function(measure) ==> key
            == entropy_of(tile_set, measure, possibilities@),
{
    if possibilities.len() <= 1 {
        return 0;
    }
    let weights = gather_weights(tile_set, possibilities);
    let list = weights.as_slice();
    let key = measure.entropy_key(list);
    proof {
        assert(key_may_be(measure, weights@, key));
    }
    key
}

} // verus!

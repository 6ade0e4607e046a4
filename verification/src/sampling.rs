//! The weighted choice of a tile for a cell.
//!
//! A cell picks among its possibilities by its own number, which it drew
//! once: the number is reduced modulo the sum of the weights, and the tile
//! is the first at which the running sum of the weights exceeds the result.

use crate::entropy::{gather_weights, weights_may_be, weights_of};
use crate::tile_set::{answers_are_functions, TileSetVirtual};
use crate::wfc_manager::{CellView, CellWfcData, WfcError};
use crate::wfc_util::TileId;
use vstd::prelude::*;

verus! {

/// The sum of the weights.
pub open spec fn total_weight(weights: Seq<i32>) -> int
    decreases weights.len(),
{
    if weights.len() == 0 {
        0
    } else {
        total_weight(weights.drop_last()) + weights.last()
    }
}

/// The position, from `from` on, of the first weight at which the running
/// sum exceeds `threshold`, where `running` is the sum of the weights
/// before `from`; the last position where the sum never exceeds it.
pub open spec fn first_exceeding(weights: Seq<i32>, threshold: int, from: int, running: int) -> int
    decreases weights.len() - from,
{
    if from >= weights.len() {
        weights.len() - 1
    } else if running + weights[from] > threshold {
        from
    } else {
        first_exceeding(weights, threshold, from + 1, running + weights[from])
    }
}

/// The magnitude of an integer.
pub open spec fn magnitude(value: int) -> int {
    if value < 0 {
        -value
    } else {
        value
    }
}

/// The position that the number `rand_num` picks among the weights: the
/// first where the weights sum to 0, else the first at which the running
/// sum exceeds `rand_num` modulo the sum of all weights.
pub open spec fn sample_index(weights: Seq<i32>, rand_num: i32) -> int {
    let total = total_weight(weights);
    if total == 0 {
        0
    } else {
        first_exceeding(weights, rand_num as int % magnitude(total), 0, 0)
    }
}

/// The tile that a cell picks when it is collapsed.
pub open spec fn chosen_tile<EdgeData, T: TileSetVirtual<EdgeData>>(
    tile_set: &T,
    cell: CellView,
) -> TileId {
    cell.possibilities[sample_index(weights_of(tile_set, cell.possibilities), cell.rand_num)]
}

/// The position that `first_exceeding` gives is one of the weights.
pub proof fn lemma_first_exceeding_in_range(
    weights: Seq<i32>,
    threshold: int,
    from: int,
    running: int,
)
    requires
        0 <= from <= weights.len(),
        weights.len() > 0,
    ensures
        0 <= first_exceeding(weights, threshold, from, running) < weights.len(),
        from < weights.len() ==> from <= first_exceeding(weights, threshold, from, running),
    decreases weights.len() - from,
{
    if from < weights.len() && !(running + weights[from] > threshold) {
        lemma_first_exceeding_in_range(weights, threshold, from + 1, running + weights[from]);
    }
}

/// The position that the number `rand_num` picks among the weights.
pub fn pick_weighted(weights: &Vec<i32>, rand_num: i32) -> (index: usize)
    requires
        weights.len() > 0,
        rand_num >= 0,
    ensures
        index == sample_index(weights@, rand_num),
        index < weights.len(),
{
    let mut total: i128 = 0;
    let mut i: usize = 0;
    while i < weights.len()
        invariant
            i <= weights.len(),
            total == total_weight(weights@.take(i as int)),
            -0x8000_0000 * i <= total <= 0x7fff_ffff * i,
        decreases weights.len() - i,
    {
        proof {
            assert(weights@.take(i + 1).drop_last() =~= weights@.take(i as int));
        }
        total = total + weights[i] as i128;
        i += 1;
    }
    proof {
        assert(weights@.take(i as int) =~= weights@);
    }
    if total == 0 {
        return 0;
    }
    let modulus: i128 = if total < 0 {
        -total
    } else {
        total
    };
    let threshold: i128 = (rand_num as i128) % modulus;
    let mut running: i128 = 0;
    let mut k: usize = 0;
    proof {
        lemma_first_exceeding_in_range(weights@, threshold as int, 0, 0);
    }
    while k < weights.len()
        invariant
            k <= weights.len(),
            weights.len() > 0,
            total == total_weight(weights@),
            total != 0,
            threshold == rand_num as int % magnitude(total as int),
            running == total_weight(weights@.take(k as int)),
            -0x8000_0000 * k <= running <= 0x7fff_ffff * k,
            first_exceeding(weights@, threshold as int, k as int, running as int)
                == first_exceeding(weights@, threshold as int, 0, 0),
        decreases weights.len() - k,
    {
        proof {
            assert(weights@.take(k + 1).drop_last() =~= weights@.take(k as int));
        }
        running = running + weights[k] as i128;
        if running > threshold {
            return k;
        }
        k += 1;
    }
    weights.len() - 1
}

/// Picks the tile for a cell: the possibility at the position that the
/// cell's number picks among the weights of its possibilities.
pub fn choose_tile_from_probabilities<EdgeData, T: TileSetVirtual<EdgeData>>(
    tile_set: &T,
    cell: &CellWfcData,
) -> (chosen: Result<TileId, WfcError>)
    requires
        cell.rand_num >= 0,
    ensures
        cell.possibilities.len() == 0 ==> chosen == Err::<TileId, WfcError>(
            WfcError::InvalidTileChoice,
        ),
        cell.possibilities.len() > 0 ==> chosen is Ok,
        chosen matches Ok(tile) ==> exists|weights: Seq<i32>| #[trigger]
            weights_may_be(tile_set, cell.possibilities@, weights) && tile
                == cell.possibilities@[sample_index(weights, cell.rand_num)],
        chosen matches Ok(tile) ==> cell.possibilities@.contains(tile),
        answers_are_functions(tile_set) ==> (chosen matches Ok(tile) ==> tile == chosen_tile(
            tile_set,
            cell@,
        )),
{
    if cell.possibilities.len() == 0 {
        return Err(WfcError::InvalidTileChoice);
    }
    let weights = gather_weights(tile_set, &cell.possibilities);
    let index = pick_weighted(&weights, cell.rand_num);
    Ok(cell.possibilities[index])
}

/// The sum of the weights before a position.
pub open spec fn weight_before(weights: Seq<i32>, position: int) -> int {
    total_weight(weights.take(position))
}

/// All weights are positive.
pub open spec fn all_positive(weights: Seq<i32>) -> bool {
    forall|i: int| 0 <= i < weights.len() ==> #[trigger] weights[i] > 0
}

/// With positive weights the sums before the positions grow with the position.
pub proof fn lemma_weight_before_grows(weights: Seq<i32>, a: int, b: int)
    requires
        all_positive(weights),
        0 <= a <= b <= weights.len(),
    ensures
        weight_before(weights, a) <= weight_before(weights, b),
        a < b ==> weight_before(weights, a) + weights[a] <= weight_before(weights, b),
    decreases b - a,
{
    if a < b {
        assert(weights.take(b).drop_last() =~= weights.take(b - 1));
        assert(weights.take(b).last() == weights[b - 1]);
        lemma_weight_before_grows(weights, a, b - 1);
    }
}

/// With positive weights, a threshold below their sum is met at the one
/// position whose share of the sum holds it.
pub proof fn lemma_first_exceeding_interval(weights: Seq<i32>, threshold: int, from: int)
    requires
        all_positive(weights),
        0 <= from < weights.len(),
        weight_before(weights, from) <= threshold < total_weight(weights),
    ensures
        ({
            let found = first_exceeding(weights, threshold, from, weight_before(weights, from));
            &&& from <= found < weights.len()
            &&& weight_before(weights, found) <= threshold < weight_before(weights, found + 1)
        }),
    decreases weights.len() - from,
{
    let running = weight_before(weights, from);
    assert(weights.take(from + 1).drop_last() =~= weights.take(from));
    assert(weights.take(from + 1).last() == weights[from]);
    assert(weight_before(weights, from + 1) == running + weights[from]);
    if !(running + weights[from] > threshold) {
        if from + 1 >= weights.len() {
            assert(weights.take(from + 1) =~= weights);
        } else {
            lemma_first_exceeding_interval(weights, threshold, from + 1);
        }
    }
}

/// The sampling law. Among tiles of positive weights, the number of a cell
/// picks the tile at `position` exactly when the number, reduced modulo the
/// sum of the weights, falls into the share of that tile: the interval that
/// starts at the sum of the weights before it and is as long as its weight.
pub proof fn lemma_sampling_law(weights: Seq<i32>, rand_num: i32, position: int)
    requires
        all_positive(weights),
        rand_num >= 0,
        0 <= position < weights.len(),
    ensures
        total_weight(weights) > 0,
        sample_index(weights, rand_num) == position <==> {
            let reduced = rand_num as int % total_weight(weights);
            weight_before(weights, position) <= reduced < weight_before(weights, position)
                + weights[position]
        },
{
    assert(weights.take(0) =~= Seq::<i32>::empty());
    assert(weights.take(weights.len() as int) =~= weights);
    lemma_weight_before_grows(weights, 0, weights.len() as int);
    let total = total_weight(weights);
    let reduced = rand_num as int % total;
    lemma_first_exceeding_interval(weights, reduced, 0);
    let found = sample_index(weights, rand_num);
    lemma_weight_before_grows(weights, found, found + 1);
    lemma_weight_before_grows(weights, position, position + 1);
    assert(weights.take(found + 1).drop_last() =~= weights.take(found));
    assert(weights.take(position + 1).drop_last() =~= weights.take(position));
    if found < position {
        lemma_weight_before_grows(weights, found + 1, position);
    }
    if position < found {
        lemma_weight_before_grows(weights, position + 1, found);
    }
}

/// The numbers below the sum of the weights that pick the tile at `position`.
pub open spec fn residues_picking(weights: Seq<i32>, position: int) -> Set<int> {
    Set::new(
        |reduced: int|
            0 <= reduced < total_weight(weights) && first_exceeding(weights, reduced, 0, 0)
                == position,
    )
}

/// The sampling law, counted. Of the numbers from 0 up to the sum of the
/// weights, as many pick a tile as its weight says: a cell whose number is
/// spread evenly picks each tile in proportion to its weight.
pub proof fn lemma_sampling_frequency(weights: Seq<i32>, position: int)
    requires
        all_positive(weights),
        0 <= position < weights.len(),
    ensures
        residues_picking(weights, position).finite(),
        residues_picking(weights, position).len() == weights[position],
{
    let low = weight_before(weights, position);
    let high = low + weights[position];
    assert(weights.take(0) =~= Seq::<i32>::empty());
    assert(weights.take(weights.len() as int) =~= weights);
    lemma_weight_before_grows(weights, 0, position);
    lemma_weight_before_grows(weights, position, weights.len() as int);
    assert forall|reduced: int|
        residues_picking(weights, position).contains(reduced) <==> vstd::set_lib::set_int_range(
            low,
            high,
        ).contains(reduced) by {
        if 0 <= reduced < total_weight(weights) {
            lemma_first_exceeding_interval(weights, reduced, 0);
            let found = first_exceeding(weights, reduced, 0, 0);
            lemma_weight_before_grows(weights, found, found + 1);
            assert(weights.take(found + 1).drop_last() =~= weights.take(found));
            assert(weights.take(position + 1).drop_last() =~= weights.take(position));
            lemma_weight_before_grows(weights, position, position + 1);
            if found < position {
                lemma_weight_before_grows(weights, found + 1, position);
            }
            if position < found {
                lemma_weight_before_grows(weights, position + 1, found);
            }
        }
    }
    assert(residues_picking(weights, position) =~= vstd::set_lib::set_int_range(low, high));
    vstd::set_lib::lemma_int_range(low, high);
}

/// The tile that a cell picks is one of its possibilities.
pub proof fn lemma_chosen_tile_is_possible<EdgeData, T: TileSetVirtual<EdgeData>>(
    tile_set: &T,
    cell: CellView,
)
    requires
        cell.possibilities.len() > 0,
    ensures
        cell.possibilities.contains(chosen_tile(tile_set, cell)),
{
    let weights = weights_of(tile_set, cell.possibilities);
    let total = total_weight(weights);
    if total != 0 {
        lemma_first_exceeding_in_range(weights, cell.rand_num as int % magnitude(total), 0, 0);
    }
    assert(0 <= sample_index(weights, cell.rand_num) < cell.possibilities.len());
}

/// The choice of a cell is its own. The tile that a cell picks depends on
/// the number of the cell, on its possibilities in their order, and on the
/// weights of these tiles, and on nothing else.
pub proof fn lemma_choice_is_local<EdgeData, T: TileSetVirtual<EdgeData>>(
    tile_set: &T,
    other_tile_set: &T,
    cell: CellView,
    other: CellView,
)
    requires
        cell.rand_num == other.rand_num,
        cell.possibilities == other.possibilities,
        weights_of(tile_set, cell.possibilities) == weights_of(
            other_tile_set,
            other.possibilities,
        ),
    ensures
        chosen_tile(tile_set, cell) == chosen_tile(other_tile_set, other),
{
}

} // verus!

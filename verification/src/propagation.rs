//! Constraint propagation: after a cell has been collapsed, the tiles that
//! no longer fit are taken from the cells around it, in a wave that visits
//! every cell at most once.

use crate::entropy::{calculate_entropy, entropy_may_be, entropy_of, measure_is_function, EntropyMeasure};
use crate::grid_system::{present, GridSystem};
use crate::tile_set::{
    answers_are_functions, ask_catalog, ask_judge, catalog, ids_may_be, judge, judge_may_answer,
    TileSetVirtual,
};
use crate::wfc_manager::{CellState, CellView, CellWfcData};
use crate::wfc_util::{CellId, TileId};
use vstd::prelude::*;

verus! {

/// Both capabilities of the solver answer as functions do.
pub open spec fn repeatable<EdgeData, T: TileSetVirtual<EdgeData>, M: EntropyMeasure>(
    tile_set: &T,
    measure: &M,
) -> bool {
    answers_are_functions(tile_set) && measure_is_function(measure)
}

/// The sets of tiles that constrain a cell with the given neighbour slots
/// during propagation: for each slot the possibilities of the neighbour,
/// and the whole catalog for a slot that is empty or names a cell without state.
pub open spec fn neighbor_sets(
    cells: Seq<CellView>,
    slots: Seq<Option<CellId>>,
    catalog: Seq<TileId>,
) -> Seq<Seq<TileId>> {
    Seq::new(
        slots.len(),
        |k: int|
            match slots[k] {
                Some(n) => if n < cells.len() {
                    cells[n as int].possibilities
                } else {
                    catalog
                },
                None => catalog,
            },
    )
}

/// `sets` is what can come out as the neighbour sets of a cell with the given slots.
pub open spec fn neighbor_sets_may_be<EdgeData, T: TileSetVirtual<EdgeData>>(
    tile_set: &T,
    cells: Seq<CellView>,
    slots: Seq<Option<CellId>>,
    sets: Seq<Seq<TileId>>,
) -> bool {
    &&& sets.len() == slots.len()
    &&& forall|k: int|
        0 <= k < slots.len() ==> match slots[k] {
            Some(n) => if n < cells.len() {
                #[trigger] sets[k] == cells[n as int].possibilities
            } else {
                ids_may_be(tile_set, sets[k])
            },
            None => ids_may_be(tile_set, sets[k]),
        }
}

/// The candidates that the tile set accepts beside the given neighbour sets, in order.
pub open spec fn compatible_tiles<EdgeData, T: TileSetVirtual<EdgeData>>(
    tile_set: &T,
    sets: Seq<Seq<TileId>>,
    candidates: Seq<TileId>,
) -> Seq<TileId> {
    candidates.filter(|tile: TileId| judge(tile_set, sets, tile))
}

/// `at` gives each tile of `kept` its position in `candidates`, and the
/// positions grow along `kept`.
pub open spec fn is_placing(at: Seq<int>, candidates: Seq<TileId>, kept: Seq<TileId>) -> bool {
    &&& at.len() == kept.len()
    &&& forall|i: int|
        0 <= i < at.len() ==> 0 <= #[trigger] at[i] < candidates.len() && candidates[at[i]]
            == kept[i]
    &&& forall|i: int, j: int| 0 <= i < j < at.len() ==> #[trigger] at[i] < #[trigger] at[j]
}

/// The tiles of `kept` are tiles of `candidates`, each at a place of its
/// own, and stand in the order in which they stand there.
#[verifier::opaque]
pub open spec fn keeps_order(candidates: Seq<TileId>, kept: Seq<TileId>) -> bool {
    exists|at: Seq<int>| is_placing(at, candidates, kept)
}

/// `kept` is what is left of `candidates` when some of them are taken
/// out: it holds tiles of `candidates` only, no more of them, and in their
/// old order.
pub open spec fn is_selection(candidates: Seq<TileId>, kept: Seq<TileId>) -> bool {
    &&& kept.len() <= candidates.len()
    &&& forall|i: int| 0 <= i < kept.len() ==> candidates.contains(#[trigger] kept[i])
    &&& keeps_order(candidates, kept)
}

/// Tiles that can be placed keep the order.
pub proof fn lemma_placing_keeps_order(at: Seq<int>, candidates: Seq<TileId>, kept: Seq<TileId>)
    requires
        is_placing(at, candidates, kept),
    ensures
        keeps_order(candidates, kept),
{
    reveal(keeps_order);
}

/// A list keeps its own order.
pub proof fn lemma_keeps_order_same(tiles: Seq<TileId>)
    ensures
        is_selection(tiles, tiles),
{
    lemma_placing_keeps_order(Seq::new(tiles.len(), |i: int| i), tiles, tiles);
    assert forall|i: int| 0 <= i < tiles.len() implies tiles.contains(#[trigger] tiles[i]) by {}
}

/// What is left of what is left keeps the order of the whole.
pub proof fn lemma_keeps_order_twice(a: Seq<TileId>, b: Seq<TileId>, c: Seq<TileId>)
    requires
        keeps_order(a, b),
        keeps_order(b, c),
    ensures
        keeps_order(a, c),
{
    reveal(keeps_order);
    let first = choose|at: Seq<int>| is_placing(at, a, b);
    let second = choose|at: Seq<int>| is_placing(at, b, c);
    let both = Seq::new(c.len(), |i: int| first[second[i]]);
    assert forall|i: int, j: int| 0 <= i < j < both.len() implies #[trigger] both[i]
        < #[trigger] both[j] by {
        assert(second[i] < second[j]);
    }
    assert(is_placing(both, a, c));
}

/// What a filter keeps stands in its old order.
pub proof fn lemma_filter_keeps_order(tiles: Seq<TileId>, pred: spec_fn(TileId) -> bool)
    ensures
        keeps_order(tiles, tiles.filter(pred)),
    decreases tiles.len(),
{
    reveal(Seq::filter);
    reveal(keeps_order);
    if tiles.len() == 0 {
        assert(is_placing(Seq::<int>::empty(), tiles, tiles.filter(pred)));
    } else {
        let rest = tiles.drop_last();
        lemma_filter_keeps_order(rest, pred);
        let at = choose|at: Seq<int>| is_placing(at, rest, rest.filter(pred));
        if pred(tiles.last()) {
            let more = at.push(tiles.len() - 1);
            assert(is_placing(more, tiles, tiles.filter(pred)));
        } else {
            assert(is_placing(at, tiles, tiles.filter(pred)));
        }
    }
}

/// One tile of a list keeps the order of the list.
pub proof fn lemma_single_keeps_order(tiles: Seq<TileId>, position: int)
    requires
        0 <= position < tiles.len(),
    ensures
        is_selection(tiles, seq![tiles[position]]),
{
    lemma_placing_keeps_order(seq![position], tiles, seq![tiles[position]]);
}

/// What is left of a list without a tile twice holds no tile twice.
pub proof fn lemma_selection_keeps_distinct(candidates: Seq<TileId>, kept: Seq<TileId>)
    requires
        is_selection(candidates, kept),
        candidates.no_duplicates(),
    ensures
        kept.no_duplicates(),
{
    reveal(keeps_order);
    let at = choose|at: Seq<int>| is_placing(at, candidates, kept);
    assert forall|i: int, j: int| 0 <= i < kept.len() && 0 <= j < kept.len() && i != j implies kept[i]
        != kept[j] by {
        if i < j {
            assert(at[i] < at[j]);
        } else {
            assert(at[j] < at[i]);
        }
        assert(candidates[at[i]] == kept[i] && candidates[at[j]] == kept[j]);
    }
}

/// A copy of a list of tiles.
pub fn copy_tiles(tiles: &Vec<TileId>) -> (copy: Vec<TileId>)
    ensures
        copy@ == tiles@,
{
    let mut copy: Vec<TileId> = Vec::new();
    let mut i: usize = 0;
    while i < tiles.len()
        invariant
            i <= tiles.len(),
            copy@ == tiles@.take(i as int),
        decreases tiles.len() - i,
    {
        copy.push(tiles[i]);
        proof {
            assert(tiles@.take(i + 1) =~= tiles@.take(i as int).push(tiles@[i as int]));
        }
        i += 1;
    }
    proof {
        assert(tiles@.take(i as int) =~= tiles@);
    }
    copy
}

/// Gathers the sets of tiles that constrain a cell with the given neighbour slots.
pub fn collect_neighbor_sets<EdgeData, T: TileSetVirtual<EdgeData>>(
    tile_set: &T,
    cells: &Vec<CellWfcData>,
    slots: &Vec<Option<CellId>>,
) -> (sets: Vec<Vec<TileId>>)
    ensures
        neighbor_sets_may_be(tile_set, cells.deep_view(), slots@, sets.deep_view()),
        answers_are_functions(tile_set) ==> sets.deep_view() == neighbor_sets(
            cells.deep_view(),
            slots@,
            catalog(tile_set),
        ),
{
    let mut sets: Vec<Vec<TileId>> = Vec::new();
    let mut k: usize = 0;
    while k < slots.len()
        invariant
            k <= slots.len(),
            sets.len() == k,
            forall|i: int|
                0 <= i < k ==> match slots[i] {
                    Some(n) => if n < cells.len() {
                        (#[trigger] sets[i])@ == cells[n as int].possibilities@
                    } else {
                        ids_may_be(tile_set, sets[i]@)
                    },
                    None => ids_may_be(tile_set, sets[i]@),
                },
            answers_are_functions(tile_set) ==> forall|i: int|
                0 <= i < k ==> (#[trigger] sets[i])@ == neighbor_sets(
                    cells.deep_view(),
                    slots@,
                    catalog(tile_set),
                )[i],
        decreases slots.len() - k,
    {
        let set = match slots[k] {
            Some(n) => if n < cells.len() {
                copy_tiles(&cells[n].possibilities)
            } else {
                ask_catalog(tile_set)
            },
            None => ask_catalog(tile_set),
        };
        sets.push(set);
        k += 1;
    }
    proof {
        let model = sets.deep_view();
        assert forall|i: int| 0 <= i < sets.len() implies #[trigger] model[i] == sets[i]@ by {
            assert(sets[i].deep_view() =~= sets[i]@);
        }
        if answers_are_functions(tile_set) {
            assert(model =~= neighbor_sets(cells.deep_view(), slots@, catalog(tile_set)));
        }
    }
    sets
}

/// Whether the tile set accepts `tile_id` in the cell `cell_id`, given what
/// the neighbours of the cell can still be.
pub fn tile_is_compatible<EdgeData, T: TileSetVirtual<EdgeData>>(
    grid: &GridSystem,
    tile_set: &T,
    cells: &Vec<CellWfcData>,
    tile_id: TileId,
    cell_id: CellId,
) -> (compatible: bool)
    requires
        cell_id < grid.cell_count(),
    ensures
        exists|sets: Seq<Seq<TileId>>| #[trigger]
            neighbor_sets_may_be(
                tile_set,
                cells.deep_view(),
                grid.neighbor_slots()[cell_id as int],
                sets,
            ) && judge_may_answer(tile_set, sets, tile_id, compatible),
        answers_are_functions(tile_set) ==> compatible == judge(
            tile_set,
            neighbor_sets(
                cells.deep_view(),
                grid.neighbor_slots()[cell_id as int],
                catalog(tile_set),
            ),
            tile_id,
        ),
{
    let slots = grid.get_neighbor_slots(cell_id);
    let sets = collect_neighbor_sets(tile_set, cells, &slots);
    ask_judge(tile_set, &sets, tile_id)
}

/// The candidates that the tile set accepts beside the given neighbour sets.
pub fn filter_by_sets<EdgeData, T: TileSetVirtual<EdgeData>>(
    tile_set: &T,
    sets: &Vec<Vec<TileId>>,
    candidates: &Vec<TileId>,
) -> (kept: Vec<TileId>)
    ensures
        is_selection(candidates@, kept@),
        forall|i: int|
            0 <= i < kept.len() ==> judge_may_answer(
                tile_set,
                sets.deep_view(),
                #[trigger] kept[i],
                true,
            ),
        answers_are_functions(tile_set) ==> kept@ == compatible_tiles(
            tile_set,
            sets.deep_view(),
            candidates@,
        ),
{
    let mut kept: Vec<TileId> = Vec::new();
    let ghost accepts = |tile: TileId| judge(tile_set, sets.deep_view(), tile);
    let ghost mut at: Seq<int> = Seq::empty();
    let mut i: usize = 0;
    proof {
        assert(candidates@.take(0) =~= Seq::<TileId>::empty());
        reveal_with_fuel(Seq::filter, 1);
    }
    while i < candidates.len()
        invariant
            i <= candidates.len(),
            kept.len() <= i,
            is_placing(at, candidates@, kept@),
            forall|k: int| 0 <= k < at.len() ==> #[trigger] at[k] < i,
            accepts == |tile: TileId| judge(tile_set, sets.deep_view(), tile),
            forall|k: int| 0 <= k < kept.len() ==> candidates@.contains(#[trigger] kept[k]),
            forall|k: int|
                0 <= k < kept.len() ==> judge_may_answer(
                    tile_set,
                    sets.deep_view(),
                    #[trigger] kept[k],
                    true,
                ),
            answers_are_functions(tile_set) ==> kept@ == candidates@.take(i as int).filter(accepts),
        decreases candidates.len() - i,
    {
        let tile = candidates[i];
        let accepted = ask_judge(tile_set, sets, tile);
        proof {
            assert(candidates@.take(i + 1) =~= candidates@.take(i as int).push(tile));
            candidates@.take(i as int).lemma_filter_push(tile, accepts);
        }
        if accepted {
            kept.push(tile);
            proof {
                at = at.push(i as int);
            }
        }
        i += 1;
    }
    proof {
        assert(candidates@.take(i as int) =~= candidates@);
        lemma_placing_keeps_order(at, candidates@, kept@);
    }
    kept
}

/// The possibilities of a cell that the tile set still accepts, given what
/// the neighbours of the cell can be.
pub fn filter_compatible_tiles<EdgeData, T: TileSetVirtual<EdgeData>>(
    grid: &GridSystem,
    tile_set: &T,
    cells: &Vec<CellWfcData>,
    cell_id: CellId,
) -> (kept: Vec<TileId>)
    requires
        cell_id < cells.len(),
        cells.len() == grid.cell_count(),
    ensures
        is_selection(cells[cell_id as int].possibilities@, kept@),
        answers_are_functions(tile_set) ==> kept@ == narrowed_possibilities(
            tile_set,
            grid.neighbor_slots(),
            cells.deep_view(),
            cell_id,
        ),
{
    let slots = grid.get_neighbor_slots(cell_id);
    let sets = collect_neighbor_sets(tile_set, cells, &slots);
    filter_by_sets(tile_set, &sets, &cells[cell_id].possibilities)
}

/// The possibilities of a cell that the tile set still accepts.
pub open spec fn narrowed_possibilities<EdgeData, T: TileSetVirtual<EdgeData>>(
    tile_set: &T,
    slots: Seq<Seq<Option<CellId>>>,
    cells: Seq<CellView>,
    cell_id: CellId,
) -> Seq<TileId> {
    compatible_tiles(
        tile_set,
        neighbor_sets(cells, slots[cell_id as int], catalog(tile_set)),
        cells[cell_id as int].possibilities,
    )
}

/// A cell has been narrowed, or left alone: it keeps its seed and its
/// number, it holds no tile that it did not hold before, only an open cell
/// changes, and what changes stays open or falls into conflict.
pub open spec fn cell_narrows(before: CellView, after: CellView) -> bool {
    &&& after.rand_seed == before.rand_seed
    &&& after.rand_num == before.rand_num
    &&& is_selection(before.possibilities, after.possibilities)
    &&& before.state != CellState::Uncollapsed ==> after == before
    &&& after.state == before.state || after.state == CellState::Conflict
    &&& before.wf() ==> after.wf()
}

/// Every cell has been narrowed or left alone.
pub open spec fn cells_narrow(before: Seq<CellView>, after: Seq<CellView>) -> bool {
    &&& after.len() == before.len()
    &&& forall|i: int| 0 <= i < before.len() ==> cell_narrows(before[i], #[trigger] after[i])
}

/// Narrowing twice is narrowing.
pub proof fn lemma_cells_narrow_twice(a: Seq<CellView>, b: Seq<CellView>, c: Seq<CellView>)
    requires
        cells_narrow(a, b),
        cells_narrow(b, c),
    ensures
        cells_narrow(a, c),
{
    assert forall|i: int| 0 <= i < a.len() implies cell_narrows(a[i], #[trigger] c[i]) by {
        assert(cell_narrows(a[i], b[i]));
        assert(cell_narrows(b[i], c[i]));
        assert forall|k: int| 0 <= k < c[i].possibilities.len() implies a[i].possibilities.contains(
            #[trigger] c[i].possibilities[k],
        ) by {
            assert(b[i].possibilities.contains(c[i].possibilities[k]));
        }
        lemma_keeps_order_twice(a[i].possibilities, b[i].possibilities, c[i].possibilities);
    }
}

/// Whether propagation narrows the cell: it is open and the tile set
/// accepts fewer tiles for it than it holds.
pub open spec fn neighbor_changes<EdgeData, T: TileSetVirtual<EdgeData>>(
    tile_set: &T,
    slots: Seq<Seq<Option<CellId>>>,
    cells: Seq<CellView>,
    cell_id: CellId,
) -> bool {
    &&& cells[cell_id as int].state == CellState::Uncollapsed
    &&& narrowed_possibilities(tile_set, slots, cells, cell_id).len()
        != cells[cell_id as int].possibilities.len()
}

/// The cells after propagation has looked at one cell: where it narrows
/// the cell, the cell holds the tiles that the tile set still accepts, with
/// their entropy, and is in conflict when none is left.
pub open spec fn after_update<EdgeData, T: TileSetVirtual<EdgeData>, M: EntropyMeasure>(
    tile_set: &T,
    measure: &M,
    slots: Seq<Seq<Option<CellId>>>,
    cells: Seq<CellView>,
    cell_id: CellId,
) -> Seq<CellView> {
    if neighbor_changes(tile_set, slots, cells, cell_id) {
        let kept = narrowed_possibilities(tile_set, slots, cells, cell_id);
        cells.update(
            cell_id as int,
            cells[cell_id as int].narrowed(kept, entropy_of(tile_set, measure, kept)),
        )
    } else {
        cells
    }
}

/// Looks at one cell during propagation: an open cell loses the tiles that
/// the tile set no longer accepts beside what its neighbours can be.
/// Returns whether the cell lost a tile.
pub fn update_neighbor_possibilities<EdgeData, T: TileSetVirtual<EdgeData>, M: EntropyMeasure>(
    grid: &GridSystem,
    tile_set: &T,
    measure: &M,
    cells: &mut Vec<CellWfcData>,
    neighbor: CellId,
) -> (changed: bool)
    requires
        neighbor < old(cells).len(),
        old(cells).len() == grid.cell_count(),
    ensures
        cells_narrow(old(cells).deep_view(), final(cells).deep_view()),
        forall|i: int|
            0 <= i < old(cells).len() && i != neighbor ==> (#[trigger] final(cells)[i])@ == old(cells)[i]@,
        !changed ==> final(cells).deep_view() == old(cells).deep_view(),
        changed ==> old(cells)[neighbor as int].state == CellState::Uncollapsed && final(cells)[neighbor as int].possibilities.len() < old(cells)[neighbor as int].possibilities.len(),
        changed ==> entropy_may_be(
            tile_set,
            measure,
            final(cells)[neighbor as int].possibilities@,
            final(cells)[neighbor as int].entropy,
        ),
        repeatable(tile_set, measure) ==> changed == neighbor_changes(
            tile_set,
            grid.neighbor_slots(),
            old(cells).deep_view(),
            neighbor,
        ) && final(cells).deep_view() == after_update(
            tile_set,
            measure,
            grid.neighbor_slots(),
            old(cells).deep_view(),
            neighbor,
        ),
{
    let ghost before = cells.deep_view();
    if cells[neighbor].state != CellState::Uncollapsed {
        proof {
            lemma_cells_narrow_same(before);
        }
        return false;
    }
    let kept = filter_compatible_tiles(grid, tile_set, cells, neighbor);
    if kept.len() == cells[neighbor].possibilities.len() {
        proof {
            lemma_cells_narrow_same(before);
        }
        return false;
    }
    let entropy = calculate_entropy(tile_set, measure, &kept);
    let state = if kept.len() == 0 {
        CellState::Conflict
    } else {
        cells[neighbor].state
    };
    let narrowed = CellWfcData {
        state,
        entropy,
        rand_seed: cells[neighbor].rand_seed,
        rand_num: cells[neighbor].rand_num,
        possibilities: kept,
    };
    cells.set(neighbor, narrowed);
    proof {
        let after = cells.deep_view();
        assert forall|i: int| 0 <= i < before.len() implies cell_narrows(
            before[i],
            #[trigger] after[i],
        ) by {
            if i != neighbor {
                assert(after[i] == before[i]);
                lemma_keeps_order_same(before[i].possibilities);
            }
        }
        if repeatable(tile_set, measure) {
            assert(after =~= after_update(
                tile_set,
                measure,
                grid.neighbor_slots(),
                before,
                neighbor,
            ));
        }
    }
    true
}

/// The state of a wave of propagation: the cells, the cells that wait for
/// their neighbours to be looked at, and for every cell whether the wave
/// has taken it up.
pub struct Wave {
    pub cells: Seq<CellView>,
    pub pending: Seq<CellId>,
    pub processed: Seq<bool>,
}

/// The number of cells that the wave has not taken up.
pub open spec fn unvisited(processed: Seq<bool>) -> nat
    decreases processed.len(),
{
    if processed.len() == 0 {
        0
    } else {
        unvisited(processed.drop_last()) + if processed.last() {
            0nat
        } else {
            1nat
        }
    }
}

/// Taking up a cell leaves one cell less to take up.
pub proof fn lemma_unvisited_update(processed: Seq<bool>, cell: int)
    requires
        0 <= cell < processed.len(),
        !processed[cell],
    ensures
        unvisited(processed.update(cell, true)) + 1 == unvisited(processed),
    decreases processed.len(),
{
    let updated = processed.update(cell, true);
    if cell == processed.len() - 1 {
        assert(updated.drop_last() =~= processed.drop_last());
    } else {
        assert(updated.drop_last() =~= processed.drop_last().update(cell, true));
        lemma_unvisited_update(processed.drop_last(), cell);
    }
}

/// The wave after it has looked at the neighbours of one cell from
/// position `from` on: each neighbour that the wave has not taken up and
/// that propagation narrows is narrowed, taken up, and made to wait.
pub open spec fn visit<EdgeData, T: TileSetVirtual<EdgeData>, M: EntropyMeasure>(
    tile_set: &T,
    measure: &M,
    slots: Seq<Seq<Option<CellId>>>,
    wave: Wave,
    neighbors: Seq<CellId>,
    from: int,
) -> Wave
    decreases neighbors.len() - from,
{
    if from < 0 || from >= neighbors.len() {
        wave
    } else {
        let n = neighbors[from];
        if n < wave.cells.len() && n < wave.processed.len() && !wave.processed[n as int]
            && neighbor_changes(tile_set, slots, wave.cells, n) {
            visit(
                tile_set,
                measure,
                slots,
                Wave {
                    cells: after_update(tile_set, measure, slots, wave.cells, n),
                    pending: wave.pending.push(n),
                    processed: wave.processed.update(n as int, true),
                },
                neighbors,
                from + 1,
            )
        } else {
            visit(tile_set, measure, slots, wave, neighbors, from + 1)
        }
    }
}

/// Looking at neighbours makes as many cells wait as it takes up.
pub proof fn lemma_visit_measure<EdgeData, T: TileSetVirtual<EdgeData>, M: EntropyMeasure>(
    tile_set: &T,
    measure: &M,
    slots: Seq<Seq<Option<CellId>>>,
    wave: Wave,
    neighbors: Seq<CellId>,
    from: int,
)
    ensures
        ({
            let next = visit(tile_set, measure, slots, wave, neighbors, from);
            &&& unvisited(next.processed) + next.pending.len() == unvisited(wave.processed)
                + wave.pending.len()
            &&& unvisited(next.processed) <= unvisited(wave.processed)
        }),
    decreases neighbors.len() - from,
{
    if !(from < 0 || from >= neighbors.len()) {
        let n = neighbors[from];
        if n < wave.cells.len() && n < wave.processed.len() && !wave.processed[n as int]
            && neighbor_changes(tile_set, slots, wave.cells, n) {
            lemma_unvisited_update(wave.processed, n as int);
            lemma_visit_measure(
                tile_set,
                measure,
                slots,
                Wave {
                    cells: after_update(tile_set, measure, slots, wave.cells, n),
                    pending: wave.pending.push(n),
                    processed: wave.processed.update(n as int, true),
                },
                neighbors,
                from + 1,
            );
        } else {
            lemma_visit_measure(tile_set, measure, slots, wave, neighbors, from + 1);
        }
    }
}

/// The neighbours of a cell that a wave looks at, in order.
pub open spec fn neighbors_of(slots: Seq<Seq<Option<CellId>>>, cell: CellId) -> Seq<CellId> {
    if cell < slots.len() {
        present(slots[cell as int])
    } else {
        Seq::empty()
    }
}

/// The cells when the wave has run out: the cell that has waited longest
/// is taken, its neighbours are looked at, and so on until no cell waits.
pub open spec fn run_wave<EdgeData, T: TileSetVirtual<EdgeData>, M: EntropyMeasure>(
    tile_set: &T,
    measure: &M,
    slots: Seq<Seq<Option<CellId>>>,
    wave: Wave,
) -> Seq<CellView>
    decreases unvisited(wave.processed), wave.pending.len(),
{
    if wave.pending.len() == 0 {
        wave.cells
    } else {
        let popped = Wave { pending: wave.pending.drop_first(), ..wave };
        let neighbors = neighbors_of(slots, wave.pending[0]);
        proof {
            lemma_visit_measure(tile_set, measure, slots, popped, neighbors, 0);
        }
        run_wave(tile_set, measure, slots, visit(tile_set, measure, slots, popped, neighbors, 0))
    }
}

/// The cells after the effects of a change of the cell `start` have been propagated.
pub open spec fn propagated<EdgeData, T: TileSetVirtual<EdgeData>, M: EntropyMeasure>(
    tile_set: &T,
    measure: &M,
    slots: Seq<Seq<Option<CellId>>>,
    cells: Seq<CellView>,
    start: CellId,
) -> Seq<CellView> {
    run_wave(tile_set, measure, slots, first_wave(cells, start))
}

/// The wave at its start: only `start` has been taken up, and it waits.
pub open spec fn first_wave(cells: Seq<CellView>, start: CellId) -> Wave {
    Wave { cells, pending: seq![start], processed: Seq::new(cells.len(), |i: int| i == start) }
}

/// Every cell among the neighbours is named by one of the slots.
pub proof fn lemma_present_members(slots: Seq<Option<CellId>>)
    ensures
        forall|j: int|
            0 <= j < present(slots).len() ==> exists|k: int|
                0 <= k < slots.len() && slots[k] == Some(#[trigger] present(slots)[j]),
    decreases slots.len(),
{
    if slots.len() > 0 {
        let rest = slots.drop_first();
        lemma_present_members(rest);
        assert forall|j: int| 0 <= j < present(slots).len() implies exists|k: int|
            0 <= k < slots.len() && slots[k] == Some(#[trigger] present(slots)[j]) by {
            if slots.first() is Some && j == 0 {
                assert(slots[0] == Some(present(slots)[j]));
            } else {
                let j_rest = if slots.first() is Some {
                    j - 1
                } else {
                    j
                };
                assert(present(rest)[j_rest] == present(slots)[j]);
                let k = choose|k: int|
                    0 <= k < rest.len() && rest[k] == Some(#[trigger] present(rest)[j_rest]);
                assert(slots[k + 1] == rest[k]);
            }
        }
    }
}

/// Looking at a cell during propagation narrows it or leaves it alone.
pub proof fn lemma_after_update_narrows<EdgeData, T: TileSetVirtual<EdgeData>, M: EntropyMeasure>(
    tile_set: &T,
    measure: &M,
    slots: Seq<Seq<Option<CellId>>>,
    cells: Seq<CellView>,
    cell_id: CellId,
)
    requires
        cell_id < cells.len(),
    ensures
        cells_narrow(cells, after_update(tile_set, measure, slots, cells, cell_id)),
{
    let after = after_update(tile_set, measure, slots, cells, cell_id);
    let kept = narrowed_possibilities(tile_set, slots, cells, cell_id);
    let old = cells[cell_id as int].possibilities;
    let accepts = |tile: TileId|
        judge(
            tile_set,
            neighbor_sets(cells, slots[cell_id as int], catalog(tile_set)),
            tile,
        );
    assert(kept == old.filter(accepts));
    old.lemma_filter_len(accepts);
    lemma_filter_keeps_order(old, accepts);
    assert forall|i: int| 0 <= i < kept.len() implies old.contains(#[trigger] kept[i]) by {
        old.lemma_filter_contains_rev(accepts, kept[i]);
    }
    assert forall|i: int| 0 <= i < cells.len() implies cell_narrows(cells[i], #[trigger] after[i]) by {
        if i != cell_id || !neighbor_changes(tile_set, slots, cells, cell_id) {
            assert(after[i] == cells[i]);
            lemma_keeps_order_same(cells[i].possibilities);
        }
    }
}

/// Looking at the neighbours of a cell narrows cells or leaves them alone.
pub proof fn lemma_visit_narrows<EdgeData, T: TileSetVirtual<EdgeData>, M: EntropyMeasure>(
    tile_set: &T,
    measure: &M,
    slots: Seq<Seq<Option<CellId>>>,
    wave: Wave,
    neighbors: Seq<CellId>,
    from: int,
)
    ensures
        cells_narrow(wave.cells, visit(tile_set, measure, slots, wave, neighbors, from).cells),
    decreases neighbors.len() - from,
{
    lemma_cells_narrow_same(wave.cells);
    if !(from < 0 || from >= neighbors.len()) {
        let n = neighbors[from];
        if n < wave.cells.len() && n < wave.processed.len() && !wave.processed[n as int]
            && neighbor_changes(tile_set, slots, wave.cells, n) {
            let next = Wave {
                cells: after_update(tile_set, measure, slots, wave.cells, n),
                pending: wave.pending.push(n),
                processed: wave.processed.update(n as int, true),
            };
            lemma_after_update_narrows(tile_set, measure, slots, wave.cells, n);
            lemma_visit_narrows(tile_set, measure, slots, next, neighbors, from + 1);
            lemma_cells_narrow_twice(
                wave.cells,
                next.cells,
                visit(tile_set, measure, slots, next, neighbors, from + 1).cells,
            );
        } else {
            lemma_visit_narrows(tile_set, measure, slots, wave, neighbors, from + 1);
        }
    }
}

/// Cells that are left alone are narrowed.
pub proof fn lemma_cells_narrow_same(cells: Seq<CellView>)
    ensures
        cells_narrow(cells, cells),
{
    assert forall|i: int| 0 <= i < cells.len() implies cell_narrows(cells[i], #[trigger] cells[i]) by {
        lemma_keeps_order_same(cells[i].possibilities);
    }
}

/// A wave of propagation narrows cells or leaves them alone: no cell gains
/// a tile, and a cell that is collapsed or in conflict does not change.
pub proof fn lemma_run_wave_narrows<EdgeData, T: TileSetVirtual<EdgeData>, M: EntropyMeasure>(
    tile_set: &T,
    measure: &M,
    slots: Seq<Seq<Option<CellId>>>,
    wave: Wave,
)
    ensures
        cells_narrow(wave.cells, run_wave(tile_set, measure, slots, wave)),
    decreases unvisited(wave.processed), wave.pending.len(),
{
    lemma_cells_narrow_same(wave.cells);
    if wave.pending.len() > 0 {
        let popped = Wave { pending: wave.pending.drop_first(), ..wave };
        let neighbors = neighbors_of(slots, wave.pending[0]);
        let next = visit(tile_set, measure, slots, popped, neighbors, 0);
        lemma_visit_measure(tile_set, measure, slots, popped, neighbors, 0);
        lemma_visit_narrows(tile_set, measure, slots, popped, neighbors, 0);
        lemma_run_wave_narrows(tile_set, measure, slots, next);
        lemma_cells_narrow_twice(
            wave.cells,
            next.cells,
            run_wave(tile_set, measure, slots, next),
        );
    }
}

/// Propagation narrows cells or leaves them alone: after the effects of a
/// change have been propagated, no cell holds a tile that it did not hold
/// before, and the cells that were collapsed or in conflict are as they were.
pub proof fn lemma_propagation_narrows<EdgeData, T: TileSetVirtual<EdgeData>, M: EntropyMeasure>(
    tile_set: &T,
    measure: &M,
    slots: Seq<Seq<Option<CellId>>>,
    cells: Seq<CellView>,
    start: CellId,
)
    ensures
        cells_narrow(cells, propagated(tile_set, measure, slots, cells, start)),
{
    lemma_run_wave_narrows(tile_set, measure, slots, first_wave(cells, start));
}

/// Propagates the effects of a change of the cell `start`.
///
/// The wave starts at `start`. The cell that has waited longest is taken
/// and its neighbours are looked at in slot order; a neighbour that is
/// open, that the wave has not taken up and that loses a tile is taken up
/// and waits in turn. No cell gains a tile, the tiles that a cell keeps
/// stay in their order, a cell without a tile twice stays so, a cell that
/// is collapsed or in conflict is not touched, and neither is the cell
/// `start`.
pub fn propagate_effects<EdgeData, T: TileSetVirtual<EdgeData>, M: EntropyMeasure>(
    grid: &GridSystem,
    tile_set: &T,
    measure: &M,
    cells: &mut Vec<CellWfcData>,
    start: CellId,
)
    requires
        grid.wf(),
        old(cells).len() == grid.cell_count(),
        start < old(cells).len(),
    ensures
        cells_narrow(old(cells).deep_view(), final(cells).deep_view()),
        final(cells).deep_view()[start as int] == old(cells).deep_view()[start as int],
        forall|i: int|
            0 <= i < old(cells).len() && old(cells).deep_view()[i].possibilities.no_duplicates()
                ==> (#[trigger] final(cells).deep_view()[i]).possibilities.no_duplicates(),
        repeatable(tile_set, measure) ==> final(cells).deep_view() == propagated(
            tile_set,
            measure,
            grid.neighbor_slots(),
            old(cells).deep_view(),
            start,
        ),
{
    let ghost before = cells.deep_view();
    let ghost slots = grid.neighbor_slots();
    let count = cells.len();
    let mut processed: Vec<bool> = Vec::new();
    let mut i: usize = 0;
    while i < count
        invariant
            i <= count,
            processed.len() == i,
            forall|k: int| 0 <= k < i ==> #[trigger] processed[k] == (k == start),
        decreases count - i,
    {
        processed.push(i == start);
        i += 1;
    }
    let mut queue: Vec<CellId> = Vec::new();
    queue.push(start);
    let mut head: usize = 0;
    proof {
        assert(processed@ =~= first_wave(before, start).processed);
        assert(queue@.skip(0) =~= first_wave(before, start).pending);
        lemma_cells_narrow_same(before);
    }
    while head < queue.len()
        invariant
            grid.wf(),
            slots == grid.neighbor_slots(),
            cells.len() == count,
            count == grid.cell_count(),
            processed.len() == count,
            head <= queue.len(),
            forall|q: int| 0 <= q < queue.len() ==> #[trigger] queue[q] < count,
            cells_narrow(before, cells.deep_view()),
            start < count,
            processed[start as int],
            cells.deep_view()[start as int] == before[start as int],
            repeatable(tile_set, measure) ==> run_wave(
                tile_set,
                measure,
                slots,
                Wave {
                    cells: cells.deep_view(),
                    pending: queue@.skip(head as int),
                    processed: processed@,
                },
            ) == propagated(tile_set, measure, slots, before, start),
        decreases unvisited(processed@) + queue.len() - head,
    {
        let current = queue[head];
        let ghost wave = Wave {
            cells: cells.deep_view(),
            pending: queue@.skip(head as int),
            processed: processed@,
        };
        let ghost popped = Wave { pending: wave.pending.drop_first(), ..wave };
        head += 1;
        let neighbors = grid.get_neighbors(current);
        proof {
            assert(wave.pending[0] == current);
            assert(wave.pending.drop_first() =~= queue@.skip(head as int));
            assert(neighbors@ == neighbors_of(slots, current));
            lemma_present_members(slots[current as int]);
        }
        let ghost waiting = unvisited(processed@) + queue.len();
        let mut j: usize = 0;
        while j < neighbors.len()
            invariant
                grid.wf(),
                slots == grid.neighbor_slots(),
                cells.len() == count,
                count == grid.cell_count(),
                processed.len() == count,
                head <= queue.len(),
                j <= neighbors.len(),
                forall|q: int| 0 <= q < queue.len() ==> #[trigger] queue[q] < count,
                forall|q: int| 0 <= q < neighbors.len() ==> #[trigger] neighbors[q] < count,
                cells_narrow(before, cells.deep_view()),
                start < count,
                processed[start as int],
                cells.deep_view()[start as int] == before[start as int],
                unvisited(processed@) + queue.len() == waiting,
                repeatable(tile_set, measure) ==> visit(
                    tile_set,
                    measure,
                    slots,
                    Wave {
                        cells: cells.deep_view(),
                        pending: queue@.skip(head as int),
                        processed: processed@,
                    },
                    neighbors@,
                    j as int,
                ) == visit(tile_set, measure, slots, popped, neighbors@, 0),
            decreases neighbors.len() - j,
        {
            let neighbor = neighbors[j];
            let ghost here = cells.deep_view();
            if !processed[neighbor] {
                let changed = update_neighbor_possibilities(
                    grid,
                    tile_set,
                    measure,
                    cells,
                    neighbor,
                );
                proof {
                    lemma_cells_narrow_twice(before, here, cells.deep_view());
                }
                if changed {
                    proof {
                        lemma_unvisited_update(processed@, neighbor as int);
                        assert(queue@.push(neighbor).skip(head as int) =~= queue@.skip(
                            head as int,
                        ).push(neighbor));
                    }
                    queue.push(neighbor);
                    processed.set(neighbor, true);
                }
            }
            j += 1;
        }
        proof {
            if repeatable(tile_set, measure) {
                assert(run_wave(tile_set, measure, slots, wave) == run_wave(
                    tile_set,
                    measure,
                    slots,
                    visit(tile_set, measure, slots, popped, neighbors@, 0),
                ));
            }
        }
    }
    proof {
        assert(queue@.skip(head as int).len() == 0);
        let after = cells.deep_view();
        assert forall|i: int|
            0 <= i < before.len() && before[i].possibilities.no_duplicates() implies (
        #[trigger] after[i]).possibilities.no_duplicates() by {
            assert(cell_narrows(before[i], after[i]));
            lemma_selection_keeps_distinct(before[i].possibilities, after[i].possibilities);
        }
    }
}

} // verus!

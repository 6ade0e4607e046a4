//! One collapse: the open cell of least entropy is decided for a tile
//! that its own number picks, and the effect is propagated.

use crate::entropy::EntropyMeasure;
use crate::grid_system::GridSystem;
use crate::propagation::{
    cell_narrows, cells_narrow, is_selection, propagate_effects, propagated, repeatable,
};
use crate::repair::{cells_persist, count_up, set_tile_for_cell, with_tile};
use crate::sampling::{
    choose_tile_from_probabilities, chosen_tile, lemma_chosen_tile_is_possible,
};
use crate::tile_set::TileSetVirtual;
use crate::wfc_manager::{CellState, CellView, CellWfcData, WfcError};
use crate::wfc_util::{CellId, TileId};
use vstd::prelude::*;

verus! {

/// The number of collapsed cells.
pub open spec fn collapsed_count(cells: Seq<CellView>) -> nat
    decreases cells.len(),
{
    if cells.len() == 0 {
        0
    } else {
        collapsed_count(cells.drop_last()) + if cells.last().state == CellState::Collapsed {
            1nat
        } else {
            0nat
        }
    }
}

/// The number of open cells.
pub open spec fn open_count(cells: Seq<CellView>) -> nat
    decreases cells.len(),
{
    if cells.len() == 0 {
        0
    } else {
        open_count(cells.drop_last()) + if cells.last().state == CellState::Uncollapsed {
            1nat
        } else {
            0nat
        }
    }
}

/// There are no more collapsed cells than cells, and as many only where
/// every cell is collapsed.
pub proof fn lemma_collapsed_count_bound(cells: Seq<CellView>)
    ensures
        collapsed_count(cells) <= cells.len(),
        collapsed_count(cells) == cells.len() ==> forall|i: int|
            0 <= i < cells.len() ==> (#[trigger] cells[i]).state == CellState::Collapsed,
    decreases cells.len(),
{
    if cells.len() > 0 {
        lemma_collapsed_count_bound(cells.drop_last());
        if collapsed_count(cells) == cells.len() {
            assert forall|i: int| 0 <= i < cells.len() implies (#[trigger] cells[i]).state
                == CellState::Collapsed by {
                if i < cells.len() - 1 {
                    assert(cells.drop_last()[i] == cells[i]);
                }
            }
        }
    }
}

/// How the counts change when one cell changes.
pub proof fn lemma_counts_update(cells: Seq<CellView>, cell: int, changed: CellView)
    requires
        0 <= cell < cells.len(),
    ensures
        collapsed_count(cells.update(cell, changed)) + (if cells[cell].state
            == CellState::Collapsed {
            1nat
        } else {
            0nat
        }) == collapsed_count(cells) + (if changed.state == CellState::Collapsed {
            1nat
        } else {
            0nat
        }),
        open_count(cells.update(cell, changed)) + (if cells[cell].state
            == CellState::Uncollapsed {
            1nat
        } else {
            0nat
        }) == open_count(cells) + (if changed.state == CellState::Uncollapsed {
            1nat
        } else {
            0nat
        }),
    decreases cells.len(),
{
    let updated = cells.update(cell, changed);
    if cell == cells.len() - 1 {
        assert(updated.drop_last() =~= cells.drop_last());
    } else {
        assert(updated.drop_last() =~= cells.drop_last().update(cell, changed));
        lemma_counts_update(cells.drop_last(), cell, changed);
    }
}

/// Narrowing keeps the collapsed cells and opens none.
pub proof fn lemma_counts_narrow(before: Seq<CellView>, after: Seq<CellView>)
    requires
        cells_narrow(before, after),
    ensures
        collapsed_count(after) == collapsed_count(before),
        open_count(after) <= open_count(before),
    decreases before.len(),
{
    if before.len() > 0 {
        assert(cell_narrows(before.last(), after.last()));
        assert forall|i: int| 0 <= i < before.drop_last().len() implies cell_narrows(
            before.drop_last()[i],
            #[trigger] after.drop_last()[i],
        ) by {
            assert(cell_narrows(before[i], after[i]));
        }
        lemma_counts_narrow(before.drop_last(), after.drop_last());
    }
}

/// The open cell of least entropy among the first `upto` cells; among
/// cells of the same entropy, the first.
pub open spec fn min_entropy_upto(cells: Seq<CellView>, upto: int) -> Option<CellId>
    decreases upto,
{
    if upto <= 0 {
        None
    } else {
        let found = min_entropy_upto(cells, upto - 1);
        let candidate = cells[upto - 1];
        if candidate.state == CellState::Uncollapsed && (match found {
            Some(best) => candidate.entropy < cells[best as int].entropy,
            None => true,
        }) {
            Some((upto - 1) as usize)
        } else {
            found
        }
    }
}

/// The open cell of least entropy; among cells of the same entropy, the first.
pub open spec fn min_entropy_cell(cells: Seq<CellView>) -> Option<CellId> {
    min_entropy_upto(cells, cells.len() as int)
}

/// What the cell of least entropy is: an open cell such that no open cell
/// has less entropy and no open cell before it has as little; none where
/// no cell is open.
pub proof fn lemma_min_entropy_cell(cells: Seq<CellView>, upto: int)
    requires
        0 <= upto <= cells.len(),
        cells.len() <= usize::MAX,
    ensures
        match min_entropy_upto(cells, upto) {
            Some(best) => {
                &&& best < upto
                &&& cells[best as int].state == CellState::Uncollapsed
                &&& forall|i: int|
                    0 <= i < upto && (#[trigger] cells[i]).state == CellState::Uncollapsed
                        ==> cells[best as int].entropy <= cells[i].entropy
                &&& forall|i: int|
                    0 <= i < best && (#[trigger] cells[i]).state == CellState::Uncollapsed
                        ==> cells[best as int].entropy < cells[i].entropy
            },
            None => forall|i: int|
                0 <= i < upto ==> (#[trigger] cells[i]).state != CellState::Uncollapsed,
        },
    decreases upto,
{
    if upto > 0 {
        lemma_min_entropy_cell(cells, upto - 1);
    }
}

/// Finds the open cell of least entropy, the first among equals.
pub fn find_min_entropy_cell(cells: &Vec<CellWfcData>) -> (found: Result<CellId, WfcError>)
    ensures
        match min_entropy_cell(cells.deep_view()) {
            Some(best) => found == Ok::<CellId, WfcError>(best),
            None => found == Err::<CellId, WfcError>(WfcError::NoUncollapsedCells),
        },
        found matches Ok(best) ==> best < cells.len() && cells[best as int].state
            == CellState::Uncollapsed,
{
    let mut best: Option<CellId> = None;
    let mut i: usize = 0;
    while i < cells.len()
        invariant
            i <= cells.len(),
            best == min_entropy_upto(cells.deep_view(), i as int),
            best matches Some(b) ==> b < i && cells[b as int].state == CellState::Uncollapsed,
        decreases cells.len() - i,
    {
        if cells[i].state == CellState::Uncollapsed {
            let better = match best {
                Some(b) => cells[i].entropy < cells[b].entropy,
                None => true,
            };
            if better {
                best = Some(i);
            }
        }
        i += 1;
    }
    match best {
        Some(b) => Ok(b),
        None => Err(WfcError::NoUncollapsedCells),
    }
}

/// No cell holds a tile that it did not hold before.
pub open spec fn never_grows(before: Seq<CellView>, after: Seq<CellView>) -> bool {
    &&& after.len() == before.len()
    &&& forall|i: int|
        0 <= i < before.len() ==> is_selection(
            before[i].possibilities,
            (#[trigger] after[i]).possibilities,
        )
}

/// The cells and the count of collapses during a run.
pub struct Progress {
    pub cells: Seq<CellView>,
    pub count: usize,
}

/// The cells and the count after the cell `cell_id` has been decided for
/// `tile`: the cell is collapsed, the count goes up, and the effect is
/// propagated.
pub open spec fn decided<EdgeData, T: TileSetVirtual<EdgeData>, M: EntropyMeasure>(
    tile_set: &T,
    measure: &M,
    slots: Seq<Seq<Option<CellId>>>,
    progress: Progress,
    cell_id: CellId,
    tile: TileId,
) -> Progress {
    Progress {
        cells: propagated(
            tile_set,
            measure,
            slots,
            with_tile(progress.cells, cell_id, tile),
            cell_id,
        ),
        count: count_up(progress.count),
    }
}

/// The cells and the count after one collapse; none where no cell is open.
pub open spec fn collapsed_once<EdgeData, T: TileSetVirtual<EdgeData>, M: EntropyMeasure>(
    tile_set: &T,
    measure: &M,
    slots: Seq<Seq<Option<CellId>>>,
    progress: Progress,
) -> Option<Progress> {
    match min_entropy_cell(progress.cells) {
        Some(cell_id) => Some(
            decided(
                tile_set,
                measure,
                slots,
                progress,
                cell_id,
                chosen_tile(tile_set, progress.cells[cell_id as int]),
            ),
        ),
        None => None,
    }
}

/// What holds after a cell has been decided, whatever the capabilities
/// answered: the cell is collapsed to the tile, no other cell that was
/// collapsed or in conflict has changed, no cell has gained a tile, and
/// the cells keep seeds, numbers and their well-formedness.
pub open spec fn is_decision(
    before: Seq<CellView>,
    after: Seq<CellView>,
    cell_id: CellId,
    tile: TileId,
) -> bool {
    &&& cells_narrow(with_tile(before, cell_id, tile), after)
    &&& after[cell_id as int] == before[cell_id as int].collapsed_to(tile)
    &&& cells_persist(before, after)
}

/// Decides a cell for a tile and propagates the effect.
pub fn decide_cell<EdgeData, T: TileSetVirtual<EdgeData>, M: EntropyMeasure>(
    grid: &GridSystem,
    tile_set: &T,
    measure: &M,
    cells: &mut Vec<CellWfcData>,
    completed_count: &mut usize,
    cell_id: CellId,
    tile: TileId,
)
    requires
        grid.wf(),
        old(cells).len() == grid.cell_count(),
        cell_id < old(cells).len(),
    ensures
        is_decision(old(cells).deep_view(), final(cells).deep_view(), cell_id, tile),
        *final(completed_count) == count_up(*old(completed_count)),
        repeatable(tile_set, measure) ==> (Progress {
            cells: final(cells).deep_view(),
            count: *final(completed_count),
        }) == decided(
            tile_set,
            measure,
            grid.neighbor_slots(),
            Progress { cells: old(cells).deep_view(), count: *old(completed_count) },
            cell_id,
            tile,
        ),
{
    let ghost before = cells.deep_view();
    set_tile_for_cell(cells, completed_count, cell_id, tile);
    let ghost set = cells.deep_view();
    propagate_effects(grid, tile_set, measure, cells, cell_id);
    proof {
        let after = cells.deep_view();
        assert(cell_narrows(set[cell_id as int], after[cell_id as int]));
        assert forall|i: int| 0 <= i < before.len() implies {
            &&& (#[trigger] after[i]).rand_seed == before[i].rand_seed
            &&& after[i].rand_num == before[i].rand_num
            &&& before[i].wf() ==> after[i].wf()
        } by {
            assert(cell_narrows(set[i], after[i]));
        }
    }
}

/// One collapse: the open cell of least entropy is decided for the tile
/// that its number picks among its possibilities, and the effect is
/// propagated. Fails where no cell is open.
pub fn collapse<EdgeData, T: TileSetVirtual<EdgeData>, M: EntropyMeasure>(
    grid: &GridSystem,
    tile_set: &T,
    measure: &M,
    cells: &mut Vec<CellWfcData>,
    completed_count: &mut usize,
) -> (done: Result<(), WfcError>)
    requires
        grid.wf(),
        old(cells).len() == grid.cell_count(),
        forall|i: int| 0 <= i < old(cells).len() ==> (#[trigger] old(cells).deep_view()[i]).wf(),
    ensures
        match min_entropy_cell(old(cells).deep_view()) {
            Some(cell_id) => done is Ok && exists|tile: TileId|
                old(cells)[cell_id as int].possibilities@.contains(tile) && #[trigger] is_decision(
                    old(cells).deep_view(),
                    final(cells).deep_view(),
                    cell_id,
                    tile,
                ),
            None => done == Err::<(), WfcError>(WfcError::NoUncollapsedCells) && final(cells).deep_view() == old(cells).deep_view(),
        },
        done is Ok ==> *final(completed_count) == count_up(*old(completed_count)),
        done is Err ==> *final(completed_count) == *old(completed_count),
        repeatable(tile_set, measure) ==> match collapsed_once(
            tile_set,
            measure,
            grid.neighbor_slots(),
            Progress { cells: old(cells).deep_view(), count: *old(completed_count) },
        ) {
            Some(progress) => done is Ok && final(cells).deep_view() == progress.cells
                && *final(completed_count) == progress.count,
            None => done is Err,
        },
{
    let cell_id = match find_min_entropy_cell(cells) {
        Ok(cell_id) => cell_id,
        Err(e) => {
            return Err(e);
        },
    };
    proof {
        assert(cells.deep_view()[cell_id as int].wf());
        crate::random::lemma_rand_value_range(cells[cell_id as int].rand_seed);
    }
    let tile = match choose_tile_from_probabilities(tile_set, &cells[cell_id]) {
        Ok(tile) => tile,
        Err(e) => {
            return Err(e);
        },
    };
    decide_cell(grid, tile_set, measure, cells, completed_count, cell_id, tile);
    Ok(())
}

/// What follows from a decision: no cell has gained a tile, cells that
/// were well formed are so still, and where the cell was open there is one
/// collapsed cell more.
pub proof fn lemma_decision_effects(
    before: Seq<CellView>,
    after: Seq<CellView>,
    cell_id: CellId,
    tile: TileId,
)
    requires
        cell_id < before.len(),
        before[cell_id as int].possibilities.contains(tile),
        before[cell_id as int].state == CellState::Uncollapsed,
        is_decision(before, after, cell_id, tile),
    ensures
        never_grows(before, after),
        collapsed_count(after) == collapsed_count(before) + 1,
        open_count(after) < open_count(before),
{
    let set = with_tile(before, cell_id, tile);
    lemma_counts_update(before, cell_id as int, before[cell_id as int].collapsed_to(tile));
    lemma_counts_narrow(set, after);
    assert forall|i: int| 0 <= i < before.len() implies is_selection(
        before[i].possibilities,
        (#[trigger] after[i]).possibilities,
    ) by {
        assert(cell_narrows(set[i], after[i]));
        if i == cell_id {
            assert(after[i].possibilities =~= seq![tile]);
            let position = choose|position: int|
                0 <= position < before[i].possibilities.len() && before[i].possibilities[position]
                    == tile;
            crate::propagation::lemma_single_keeps_order(before[i].possibilities, position);
        } else {
            assert(set[i] == before[i]);
        }
    }
}

/// A decision keeps the cells in order.
///
/// Take cells that are well formed, of which as many are collapsed as the
/// count says. Decide an open cell for one of its tiles and propagate. Then
/// the cell is collapsed to the tile, the cells are well formed again, the
/// count again is the number of collapsed cells, and no cell holds a tile
/// that it did not hold before.
pub proof fn lemma_decision_keeps_order<EdgeData, T: TileSetVirtual<EdgeData>, M: EntropyMeasure>(
    tile_set: &T,
    measure: &M,
    slots: Seq<Seq<Option<CellId>>>,
    progress: Progress,
    cell_id: CellId,
    tile: TileId,
)
    requires
        progress.cells.len() == slots.len(),
        slots.len() < usize::MAX,
        forall|i: int| 0 <= i < progress.cells.len() ==> (#[trigger] progress.cells[i]).wf(),
        progress.count == collapsed_count(progress.cells),
        cell_id < slots.len(),
        progress.cells[cell_id as int].state == CellState::Uncollapsed,
        progress.cells[cell_id as int].possibilities.contains(tile),
    ensures
        ({
            let after = decided(tile_set, measure, slots, progress, cell_id, tile);
            &&& is_decision(progress.cells, after.cells, cell_id, tile)
            &&& forall|i: int| 0 <= i < after.cells.len() ==> (#[trigger] after.cells[i]).wf()
            &&& after.count == collapsed_count(after.cells)
            &&& never_grows(progress.cells, after.cells)
        }),
{
    let cells = progress.cells;
    let set = with_tile(cells, cell_id, tile);
    let after = decided(tile_set, measure, slots, progress, cell_id, tile);
    lemma_collapsed_count_bound(cells);
    crate::propagation::lemma_cells_narrow_same(set);
    crate::propagation::lemma_propagation_narrows(tile_set, measure, slots, set, cell_id);
    assert(cells_narrow(set, after.cells));
    assert(cell_narrows(set[cell_id as int], after.cells[cell_id as int]));
    assert forall|i: int| 0 <= i < cells.len() implies {
        &&& (#[trigger] after.cells[i]).rand_seed == cells[i].rand_seed
        &&& after.cells[i].rand_num == cells[i].rand_num
        &&& cells[i].wf() ==> after.cells[i].wf()
    } by {
        assert(cell_narrows(set[i], after.cells[i]));
        if i != cell_id {
            assert(set[i] == cells[i]);
        }
    }
    lemma_decision_effects(cells, after.cells, cell_id, tile);
}

/// A step keeps the cells in order.
///
/// Take cells that are well formed, of which as many are collapsed as the
/// count says. After one collapse the cells are well formed again, the
/// count again is the number of collapsed cells, which is one more than
/// before, and no cell holds a tile that it did not hold before.
pub proof fn lemma_step_keeps_order<EdgeData, T: TileSetVirtual<EdgeData>, M: EntropyMeasure>(
    tile_set: &T,
    measure: &M,
    slots: Seq<Seq<Option<CellId>>>,
    progress: Progress,
)
    requires
        progress.cells.len() == slots.len(),
        slots.len() < usize::MAX,
        forall|i: int| 0 <= i < progress.cells.len() ==> (#[trigger] progress.cells[i]).wf(),
        progress.count == collapsed_count(progress.cells),
    ensures
        collapsed_once(tile_set, measure, slots, progress) matches Some(after) ==> {
            &&& forall|i: int| 0 <= i < after.cells.len() ==> (#[trigger] after.cells[i]).wf()
            &&& after.count == collapsed_count(after.cells)
            &&& after.count == progress.count + 1
            &&& never_grows(progress.cells, after.cells)
        },
{
    let cells = progress.cells;
    lemma_min_entropy_cell(cells, cells.len() as int);
    lemma_collapsed_count_bound(cells);
    if min_entropy_cell(cells) is Some {
        let cell_id = min_entropy_cell(cells)->0;
        assert(cells[cell_id as int].wf());
        lemma_chosen_tile_is_possible(tile_set, cells[cell_id as int]);
        lemma_decision_keeps_order(
            tile_set,
            measure,
            slots,
            progress,
            cell_id,
            chosen_tile(tile_set, cells[cell_id as int]),
        );
    }
}

/// No tile comes to stand twice. Where no cell gains a tile, a cell whose
/// possibilities held no tile twice holds none twice afterwards: so it is
/// after every collapse and every forced collapse, from the initialisation
/// on, for a catalog that lists no tile twice.
pub proof fn lemma_never_grows_keeps_distinct(before: Seq<CellView>, after: Seq<CellView>)
    requires
        never_grows(before, after),
    ensures
        forall|i: int|
            0 <= i < before.len() && before[i].possibilities.no_duplicates() ==> (
            #[trigger] after[i]).possibilities.no_duplicates(),
{
    assert forall|i: int|
        0 <= i < before.len() && before[i].possibilities.no_duplicates() implies (
    #[trigger] after[i]).possibilities.no_duplicates() by {
        crate::propagation::lemma_selection_keeps_distinct(
            before[i].possibilities,
            after[i].possibilities,
        );
    }
}

} // verus!

//! Why collapsed neighbours fit.
//!
//! On a grid whose adjacency goes both ways, with a tile set that judges a
//! candidate direction by direction, every tile that a cell can still be
//! fits the tiles of its collapsed neighbours, from the initialisation on
//! and through every collapse. In particular any two collapsed cells that
//! are neighbours hold tiles that fit.

use crate::collapse::{collapsed_count, decided, lemma_collapsed_count_bound, Progress};
use crate::entropy::EntropyMeasure;
use crate::grid_system::present;
use crate::propagation::lemma_present_members;
use crate::collapse::{
    collapsed_once, lemma_counts_narrow, lemma_counts_update, lemma_min_entropy_cell,
    min_entropy_cell,
};
use crate::sampling::{chosen_tile, lemma_chosen_tile_is_possible};
use crate::propagation::{
    after_update, cell_narrows, cells_narrow, first_wave, lemma_after_update_narrows,
    lemma_cells_narrow_twice, lemma_run_wave_narrows, lemma_visit_narrows,
    narrowed_possibilities, neighbor_changes, neighbor_sets, neighbors_of, propagated, run_wave,
    visit, Wave,
};
use crate::repair::{count_up, with_tile};
use crate::tile_set::{catalog, judge, TileSetVirtual};
use crate::wfc_manager::{CellState, CellView};
use crate::wfc_util::{CellId, TileId};
use vstd::prelude::*;

verus! {

/// Slots name cells of the grid, and no cell names itself.
pub open spec fn slots_in_range(slots: Seq<Seq<Option<CellId>>>) -> bool {
    forall|c: int, k: int|
        0 <= c < slots.len() && 0 <= k < slots[c].len() ==> (#[trigger] slots[c][k] matches Some(
            n,
        ) ==> n < slots.len() && n != c)
}

/// The adjacency goes both ways: where a cell has a neighbour in
/// direction `k`, the neighbour has the cell in direction `reverse(k)`.
pub open spec fn is_two_way(slots: Seq<Seq<Option<CellId>>>, reverse: spec_fn(int) -> int) -> bool {
    forall|c: int, k: int|
        0 <= c < slots.len() && 0 <= k < slots[c].len() ==> (#[trigger] slots[c][k] matches Some(
            n,
        ) ==> n < slots.len() && 0 <= reverse(k) < slots[n as int].len()
            && slots[n as int][reverse(k)] == Some(c as usize))
}

/// Whether a candidate fits, direction by direction: for every direction
/// with a neighbour set that is not empty, the candidate fits some tile of
/// the set.
pub open spec fn accepted_locally(
    fit: spec_fn(int, TileId, TileId) -> bool,
    sets: Seq<Seq<TileId>>,
    candidate: TileId,
) -> bool {
    forall|k: int|
        0 <= k < sets.len() ==> (#[trigger] sets[k]).len() == 0 || exists|i: int|
            0 <= i < sets[k].len() && #[trigger] fit(k, candidate, sets[k][i])
}

/// The tile set judges direction by direction, by the relation `fit`:
/// `fit(k, a, b)` says that tile `a` can have tile `b` as its neighbour in direction `k`.
pub open spec fn judge_is_local<EdgeData, T: TileSetVirtual<EdgeData>>(
    tile_set: &T,
    fit: spec_fn(int, TileId, TileId) -> bool,
) -> bool {
    forall|sets: Seq<Seq<TileId>>, candidate: TileId| #[trigger]
        judge(tile_set, sets, candidate) <==> accepted_locally(fit, sets, candidate)
}

/// In direction `k`, tile `a` fits tile `b` exactly when, seen from the
/// other side, `b` fits `a`.
pub open spec fn mutual_at(
    fit: spec_fn(int, TileId, TileId) -> bool,
    reverse: spec_fn(int) -> int,
    k: int,
    a: TileId,
    b: TileId,
) -> bool {
    fit(k, a, b) == fit(reverse(k), b, a)
}

/// Fitting is mutual in every direction.
pub open spec fn fit_is_mutual(
    fit: spec_fn(int, TileId, TileId) -> bool,
    reverse: spec_fn(int) -> int,
) -> bool {
    forall|k: int, a: TileId, b: TileId| #[trigger] mutual_at(fit, reverse, k, a, b)
}

/// Every tile that the cell `c` can still be fits the tile of its
/// neighbour in direction `k`, where that neighbour is collapsed.
pub open spec fn fits_at(
    slots: Seq<Seq<Option<CellId>>>,
    cells: Seq<CellView>,
    fit: spec_fn(int, TileId, TileId) -> bool,
    c: int,
    k: int,
) -> bool {
    slots[c][k] matches Some(n) ==> (n < cells.len() && cells[n as int].state
        == CellState::Collapsed ==> forall|i: int|
        0 <= i < cells[c].possibilities.len() ==> fit(
            k,
            #[trigger] cells[c].possibilities[i],
            cells[n as int].possibilities[0],
        ))
}

/// Every tile that a cell can still be fits the tiles of its collapsed neighbours.
pub open spec fn cells_fit(
    slots: Seq<Seq<Option<CellId>>>,
    cells: Seq<CellView>,
    fit: spec_fn(int, TileId, TileId) -> bool,
) -> bool {
    forall|c: int, k: int|
        0 <= c < cells.len() && 0 <= k < slots[c].len() ==> #[trigger] fits_at(
            slots,
            cells,
            fit,
            c,
            k,
        )
}

/// Every tile that the cell `c` can be fits the tile of the cell `x`,
/// wherever `x` is a neighbour of `c`.
pub open spec fn fits_toward(
    slots: Seq<Seq<Option<CellId>>>,
    cells: Seq<CellView>,
    fit: spec_fn(int, TileId, TileId) -> bool,
    c: int,
    x: CellId,
) -> bool {
    forall|k: int|
        0 <= k < slots[c].len() && slots[c][k] == Some(x) ==> #[trigger] fits_at(
            slots,
            cells,
            fit,
            c,
            k,
        )
}

/// Where a filter keeps as many as there were, all pass.
pub proof fn lemma_filter_keeps_all(tiles: Seq<TileId>, pred: spec_fn(TileId) -> bool)
    requires
        tiles.filter(pred).len() == tiles.len(),
    ensures
        forall|i: int| 0 <= i < tiles.len() ==> pred(#[trigger] tiles[i]),
    decreases tiles.len(),
{
    reveal(Seq::filter);
    if tiles.len() > 0 {
        tiles.drop_last().lemma_filter_len(pred);
        lemma_filter_keeps_all(tiles.drop_last(), pred);
        assert forall|i: int| 0 <= i < tiles.len() implies pred(#[trigger] tiles[i]) by {
            if i < tiles.len() - 1 {
                assert(tiles.drop_last()[i] == tiles[i]);
            }
        }
    }
}

/// A cell that a slot names is among the neighbours.
pub proof fn lemma_present_contains(slots: Seq<Option<CellId>>, k: int)
    requires
        0 <= k < slots.len(),
        slots[k] is Some,
    ensures
        present(slots).contains(slots[k]->0),
    decreases slots.len(),
{
    let rest = slots.drop_first();
    if k == 0 {
        assert(present(slots)[0] == slots[k]->0);
    } else {
        lemma_present_contains(rest, k - 1);
        let i = choose|i: int| 0 <= i < present(rest).len() && present(rest)[i] == rest[k - 1]->0;
        if slots.first() is Some {
            assert(present(slots)[i + 1] == present(rest)[i]);
        } else {
            assert(present(slots)[i] == present(rest)[i]);
        }
    }
}

/// Narrowing keeps the tiles of a cell fitting the tile of a collapsed cell.
pub proof fn lemma_narrowing_keeps_fit(
    slots: Seq<Seq<Option<CellId>>>,
    before: Seq<CellView>,
    after: Seq<CellView>,
    fit: spec_fn(int, TileId, TileId) -> bool,
    c: int,
    x: CellId,
)
    requires
        cells_narrow(before, after),
        0 <= c < before.len(),
        x < before.len(),
        before[x as int].state == CellState::Collapsed,
        fits_toward(slots, before, fit, c, x),
    ensures
        fits_toward(slots, after, fit, c, x),
{
    assert(cell_narrows(before[x as int], after[x as int]));
    assert(cell_narrows(before[c], after[c]));
    assert forall|k: int| 0 <= k < slots[c].len() && slots[c][k] == Some(x) implies #[trigger] fits_at(
        slots,
        after,
        fit,
        c,
        k,
    ) by {
        assert(fits_at(slots, before, fit, c, k));
        assert forall|i: int| 0 <= i < after[c].possibilities.len() implies fit(
            k,
            #[trigger] after[c].possibilities[i],
            after[x as int].possibilities[0],
        ) by {
            let tile = after[c].possibilities[i];
            assert(before[c].possibilities.contains(tile));
            let j = choose|j: int|
                0 <= j < before[c].possibilities.len() && before[c].possibilities[j] == tile;
            assert(fit(k, before[c].possibilities[j], before[x as int].possibilities[0]));
        }
    }
}

/// After propagation has looked at a cell, the tiles of the cell fit the
/// tile of a collapsed neighbour `x`, where they did so before for a cell
/// that is not open.
pub proof fn lemma_after_update_fits<EdgeData, T: TileSetVirtual<EdgeData>, M: EntropyMeasure>(
    tile_set: &T,
    measure: &M,
    slots: Seq<Seq<Option<CellId>>>,
    cells: Seq<CellView>,
    fit: spec_fn(int, TileId, TileId) -> bool,
    n: CellId,
    x: CellId,
)
    requires
        judge_is_local(tile_set, fit),
        cells.len() == slots.len(),
        n < cells.len(),
        x < cells.len(),
        n != x,
        cells[x as int].state == CellState::Collapsed,
        cells[x as int].possibilities.len() == 1,
        cells[n as int].state != CellState::Uncollapsed ==> fits_toward(
            slots,
            cells,
            fit,
            n as int,
            x,
        ),
    ensures
        fits_toward(
            slots,
            after_update(tile_set, measure, slots, cells, n),
            fit,
            n as int,
            x,
        ),
{
    let after = after_update(tile_set, measure, slots, cells, n);
    let old = cells[n as int].possibilities;
    let sets = neighbor_sets(cells, slots[n as int], catalog(tile_set));
    let accepts = |tile: TileId| judge(tile_set, sets, tile);
    let kept = narrowed_possibilities(tile_set, slots, cells, n);
    assert(kept == old.filter(accepts));
    assert(after[x as int] == cells[x as int]);
    if cells[n as int].state == CellState::Uncollapsed {
        if kept.len() == old.len() {
            lemma_filter_keeps_all(old, accepts);
        }
        assert forall|k: int|
            0 <= k < slots[n as int].len() && slots[n as int][k] == Some(x) implies #[trigger] fits_at(
            slots,
            after,
            fit,
            n as int,
            k,
        ) by {
            assert forall|i: int| 0 <= i < after[n as int].possibilities.len() implies fit(
                k,
                #[trigger] after[n as int].possibilities[i],
                after[x as int].possibilities[0],
            ) by {
                let tile = after[n as int].possibilities[i];
                if kept.len() == old.len() {
                    assert(after == cells);
                    assert(accepts(old[i]));
                } else {
                    assert(after[n as int].possibilities == kept);
                    old.lemma_filter_pred(accepts, i);
                }
                assert(judge(tile_set, sets, tile));
                assert(accepted_locally(fit, sets, tile));
                assert(sets[k] == cells[x as int].possibilities);
                let j = choose|j: int| 0 <= j < sets[k].len() && #[trigger] fit(k, tile, sets[k][j]);
                assert(j == 0);
            }
        }
    } else {
        assert(after == cells);
    }
}

/// The cells that the wave has taken up, and the cells that are not open,
/// hold only tiles that fit the tile of the cell `x`.
pub open spec fn others_fit(
    slots: Seq<Seq<Option<CellId>>>,
    cells: Seq<CellView>,
    fit: spec_fn(int, TileId, TileId) -> bool,
    processed: Seq<bool>,
    x: CellId,
) -> bool {
    forall|c: int|
        0 <= c < cells.len() && c != x && (processed[c] || cells[c].state
            != CellState::Uncollapsed) ==> #[trigger] fits_toward(slots, cells, fit, c, x)
}

/// After a wave has looked at the neighbours of the collapsed cell `x`,
/// each of them holds only tiles that fit the tile of `x`.
pub proof fn lemma_visit_fits<EdgeData, T: TileSetVirtual<EdgeData>, M: EntropyMeasure>(
    tile_set: &T,
    measure: &M,
    slots: Seq<Seq<Option<CellId>>>,
    wave: Wave,
    neighbors: Seq<CellId>,
    from: int,
    fit: spec_fn(int, TileId, TileId) -> bool,
    x: CellId,
)
    requires
        judge_is_local(tile_set, fit),
        wave.cells.len() == slots.len(),
        wave.processed.len() == slots.len(),
        x < slots.len(),
        wave.cells[x as int].state == CellState::Collapsed,
        wave.cells[x as int].possibilities.len() == 1,
        0 <= from,
        forall|i: int| 0 <= i < neighbors.len() ==> #[trigger] neighbors[i] < slots.len()
            && neighbors[i] != x,
        others_fit(slots, wave.cells, fit, wave.processed, x),
    ensures
        ({
            let next = visit(tile_set, measure, slots, wave, neighbors, from);
            &&& next.cells.len() == slots.len()
            &&& next.processed.len() == slots.len()
            &&& next.cells[x as int] == wave.cells[x as int]
            &&& others_fit(slots, next.cells, fit, next.processed, x)
            &&& forall|c: int|
                0 <= c < slots.len() && wave.processed[c] ==> #[trigger] next.processed[c]
            &&& forall|i: int|
                from <= i < neighbors.len() ==> fits_toward(
                    slots,
                    next.cells,
                    fit,
                    (#[trigger] neighbors[i]) as int,
                    x,
                )
        }),
    decreases neighbors.len() - from,
{
    if from < neighbors.len() {
        let n = neighbors[from];
        let updated = after_update(tile_set, measure, slots, wave.cells, n);
        lemma_after_update_narrows(tile_set, measure, slots, wave.cells, n);
        if !wave.processed[n as int] {
            assert(wave.cells[n as int].state != CellState::Uncollapsed ==> fits_toward(
                slots,
                wave.cells,
                fit,
                n as int,
                x,
            ));
            lemma_after_update_fits(tile_set, measure, slots, wave.cells, fit, n, x);
        }
        if !wave.processed[n as int] && neighbor_changes(tile_set, slots, wave.cells, n) {
            let next = Wave {
                cells: updated,
                pending: wave.pending.push(n),
                processed: wave.processed.update(n as int, true),
            };
            assert(cell_narrows(wave.cells[x as int], updated[x as int]));
            assert forall|c: int|
                0 <= c < next.cells.len() && c != x && (next.processed[c] || next.cells[c].state
                    != CellState::Uncollapsed) implies #[trigger] fits_toward(
                slots,
                next.cells,
                fit,
                c,
                x,
            ) by {
                if c != n {
                    assert(updated[c] == wave.cells[c]);
                    assert(fits_toward(slots, wave.cells, fit, c, x));
                    lemma_narrowing_keeps_fit(slots, wave.cells, updated, fit, c, x);
                }
            }
            lemma_visit_fits(tile_set, measure, slots, next, neighbors, from + 1, fit, x);
            let last = visit(tile_set, measure, slots, next, neighbors, from + 1);
            assert(next.processed[n as int]);
            assert(last.processed[n as int]);
            assert(fits_toward(slots, last.cells, fit, n as int, x));
        } else {
            assert(fits_toward(slots, wave.cells, fit, n as int, x)) by {
                if !wave.processed[n as int] {
                    assert(updated == wave.cells);
                }
            }
            lemma_visit_fits(tile_set, measure, slots, wave, neighbors, from + 1, fit, x);
            let last = visit(tile_set, measure, slots, wave, neighbors, from + 1);
            lemma_visit_narrows(tile_set, measure, slots, wave, neighbors, from + 1);
            lemma_narrowing_keeps_fit(slots, wave.cells, last.cells, fit, n as int, x);
        }
    }
}

/// Collapsed neighbours fit, and stay fitting.
///
/// Take a grid whose adjacency goes both ways, a tile set that judges
/// direction by direction by a relation that is mutual, and cells of which
/// every tile fits the tiles of the collapsed neighbours. Decide an open
/// cell for one of its tiles and propagate. Then again every tile of every
/// cell fits the tiles of its collapsed neighbours.
#[verifier::rlimit(40)]
pub proof fn lemma_decision_keeps_fit<EdgeData, T: TileSetVirtual<EdgeData>, M: EntropyMeasure>(
    tile_set: &T,
    measure: &M,
    slots: Seq<Seq<Option<CellId>>>,
    progress: Progress,
    cell_id: CellId,
    tile: TileId,
    fit: spec_fn(int, TileId, TileId) -> bool,
    reverse: spec_fn(int) -> int,
)
    requires
        slots_in_range(slots),
        is_two_way(slots, reverse),
        judge_is_local(tile_set, fit),
        fit_is_mutual(fit, reverse),
        progress.cells.len() == slots.len(),
        slots.len() < usize::MAX,
        forall|i: int| 0 <= i < progress.cells.len() ==> (#[trigger] progress.cells[i]).wf(),
        progress.count == collapsed_count(progress.cells),
        cells_fit(slots, progress.cells, fit),
        cell_id < slots.len(),
        progress.cells[cell_id as int].state == CellState::Uncollapsed,
        progress.cells[cell_id as int].possibilities.contains(tile),
    ensures
        ({
            let after = decided(tile_set, measure, slots, progress, cell_id, tile);
            &&& cells_fit(slots, after.cells, fit)
            &&& after.cells.len() == slots.len()
            &&& forall|i: int| 0 <= i < after.cells.len() ==> (#[trigger] after.cells[i]).wf()
            &&& after.count == collapsed_count(after.cells)
        }),
{
    let cells = progress.cells;
    let x = cell_id;
    let set = with_tile(cells, x, tile);
    let count = count_up(progress.count);
    let first = first_wave(set, x);
    lemma_collapsed_count_bound(cells);
    lemma_counts_update(cells, x as int, cells[x as int].collapsed_to(tile));
    assert(set[x as int].possibilities =~= seq![tile]);
    let at = choose|at: int|
        0 <= at < cells[x as int].possibilities.len() && cells[x as int].possibilities[at] == tile;

    // The cells fit the collapsed neighbours that they had.
    assert forall|c: int, k: int|
        0 <= c < set.len() && 0 <= k < slots[c].len() && slots[c][k] != Some(x) implies #[trigger] fits_at(
        slots,
        set,
        fit,
        c,
        k,
    ) by {
        assert(fits_at(slots, cells, fit, c, k));
        if slots[c][k] is Some {
            let n = slots[c][k]->0;
            assert(set[n as int] == cells[n as int]);
            if c == x {
                assert(fit(k, cells[x as int].possibilities[at], cells[n as int].possibilities[0])
                    || !(n < cells.len() && cells[n as int].state == CellState::Collapsed));
            }
        }
    }

    // The cells that are not open fit the new tile.
    assert forall|c: int|
        0 <= c < set.len() && c != x && (first.processed[c] || set[c].state
            != CellState::Uncollapsed) implies #[trigger] fits_toward(slots, set, fit, c, x) by {
        assert(set[c] == cells[c]);
        assert(cells[c].wf());
        assert forall|k: int| 0 <= k < slots[c].len() && slots[c][k] == Some(x) implies #[trigger] fits_at(
            slots,
            set,
            fit,
            c,
            k,
        ) by {
            if cells[c].state == CellState::Collapsed {
                let back = reverse(k);
                assert(slots[x as int][back] == Some(c as usize));
                assert(fits_at(slots, cells, fit, x as int, back));
                let own = cells[c].possibilities[0];
                assert(fit(back, cells[x as int].possibilities[at], own));
                assert(mutual_at(fit, reverse, k, own, tile));
            }
        }
    }
    assert(others_fit(slots, set, fit, first.processed, x));

    assert forall|i: int| 0 <= i < set.len() implies (#[trigger] set[i]).wf() by {
        if i != x {
            assert(set[i] == cells[i]);
        }
    }
    {
        let popped = Wave { pending: first.pending.drop_first(), ..first };
        let neighbors = neighbors_of(slots, x);
        let next = visit(tile_set, measure, slots, popped, neighbors, 0);
        let last = run_wave(tile_set, measure, slots, next);
        assert(first.pending[0] == x);
        assert(propagated(tile_set, measure, slots, set, x) == last);
        lemma_present_members(slots[x as int]);
        assert forall|i: int| 0 <= i < neighbors.len() implies #[trigger] neighbors[i] < slots.len()
            && neighbors[i] != x by {
            let k = choose|k: int|
                0 <= k < slots[x as int].len() && slots[x as int][k] == Some(
                    #[trigger] present(slots[x as int])[i],
                );
            assert(slots[x as int][k] matches Some(n) ==> n < slots.len() && n != x);
        }
        lemma_visit_fits(tile_set, measure, slots, popped, neighbors, 0, fit, x);
        lemma_visit_narrows(tile_set, measure, slots, popped, neighbors, 0);
        lemma_run_wave_narrows(tile_set, measure, slots, next);
        lemma_cells_narrow_twice(set, next.cells, last);
        lemma_counts_narrow(set, last);
        assert forall|i: int| 0 <= i < last.len() implies (#[trigger] last[i]).wf() by {
            assert(cell_narrows(set[i], last[i]));
        }
        assert forall|c: int, k: int| 0 <= c < last.len() && 0 <= k < slots[c].len() implies #[trigger] fits_at(
            slots,
            last,
            fit,
            c,
            k,
        ) by {
            if slots[c][k] is Some {
                let n = slots[c][k]->0;
                assert(n < slots.len() && n != c);
                assert(cell_narrows(set[n as int], last[n as int]));
                if last[n as int].state == CellState::Collapsed {
                    if n == x {
                        let back = reverse(k);
                        assert(slots[x as int][back] == Some(c as usize));
                        lemma_present_contains(slots[x as int], back);
                        let i = choose|i: int| 0 <= i < neighbors.len() && neighbors[i] == c as usize;
                        assert(fits_toward(slots, next.cells, fit, neighbors[i] as int, x));
                        lemma_narrowing_keeps_fit(slots, next.cells, last, fit, c, x);
                    } else {
                        assert forall|j: int|
                            0 <= j < slots[c].len() && slots[c][j] == Some(n) implies #[trigger] fits_at(
                            slots,
                            set,
                            fit,
                            c,
                            j,
                        ) by {}
                        lemma_narrowing_keeps_fit(slots, set, last, fit, c, n);
                    }
                }
            }
        }
    }
}

/// Cells that are all open fit: none has a collapsed neighbour. So the
/// cells fit right after the initialisation.
pub proof fn lemma_open_cells_fit(
    slots: Seq<Seq<Option<CellId>>>,
    cells: Seq<CellView>,
    fit: spec_fn(int, TileId, TileId) -> bool,
)
    requires
        forall|i: int| 0 <= i < cells.len() ==> (#[trigger] cells[i]).state
            == CellState::Uncollapsed,
    ensures
        cells_fit(slots, cells, fit),
{
}

/// Where the cells fit, any two collapsed cells that are neighbours hold
/// tiles that fit each other.
pub proof fn lemma_collapsed_neighbors_fit(
    slots: Seq<Seq<Option<CellId>>>,
    cells: Seq<CellView>,
    fit: spec_fn(int, TileId, TileId) -> bool,
    c: CellId,
    k: int,
)
    requires
        cells_fit(slots, cells, fit),
        c < cells.len(),
        0 <= k < slots[c as int].len(),
        slots[c as int][k] matches Some(n) && n < cells.len() && cells[n as int].state
            == CellState::Collapsed,
        cells[c as int].state == CellState::Collapsed,
        cells[c as int].wf(),
    ensures
        fit(k, cells[c as int].possibilities[0], cells[(slots[c as int][k]->0) as int].possibilities[0]),
{
    assert(fits_at(slots, cells, fit, c as int, k));
}

/// A step keeps the cells fitting.
///
/// Under the conditions of [`lemma_decision_keeps_fit`], the collapse of
/// the open cell of least entropy to the tile that its number picks leaves
/// cells of which every tile fits the tiles of the collapsed neighbours,
/// and it leaves the cells well formed and counted. So the cells fit after
/// every step of a run that began with the initialisation.
pub proof fn lemma_step_keeps_fit<EdgeData, T: TileSetVirtual<EdgeData>, M: EntropyMeasure>(
    tile_set: &T,
    measure: &M,
    slots: Seq<Seq<Option<CellId>>>,
    progress: Progress,
    fit: spec_fn(int, TileId, TileId) -> bool,
    reverse: spec_fn(int) -> int,
)
    requires
        slots_in_range(slots),
        is_two_way(slots, reverse),
        judge_is_local(tile_set, fit),
        fit_is_mutual(fit, reverse),
        progress.cells.len() == slots.len(),
        slots.len() < usize::MAX,
        forall|i: int| 0 <= i < progress.cells.len() ==> (#[trigger] progress.cells[i]).wf(),
        progress.count == collapsed_count(progress.cells),
        cells_fit(slots, progress.cells, fit),
    ensures
        collapsed_once(tile_set, measure, slots, progress) matches Some(after) ==> {
            &&& cells_fit(slots, after.cells, fit)
            &&& after.cells.len() == slots.len()
            &&& forall|i: int| 0 <= i < after.cells.len() ==> (#[trigger] after.cells[i]).wf()
            &&& after.count == collapsed_count(after.cells)
        },
{
    let cells = progress.cells;
    lemma_min_entropy_cell(cells, cells.len() as int);
    if min_entropy_cell(cells) is Some {
        let cell_id = min_entropy_cell(cells)->0;
        let cell = cells[cell_id as int];
        assert(cell.wf());
        let tile = chosen_tile(tile_set, cell);
        lemma_chosen_tile_is_possible(tile_set, cell);
        lemma_decision_keeps_fit(
            tile_set,
            measure,
            slots,
            progress,
            cell_id,
            tile,
            fit,
            reverse,
        );
    }
}

/// A run that succeeds leaves neighbours that fit.
///
/// Under the conditions of [`lemma_decision_keeps_fit`], a run that
/// succeeds, from cells that fit and are counted, leaves every cell
/// collapsed, the count at the number of cells, and cells that fit: any
/// two neighbours hold tiles that fit each other.
pub proof fn lemma_run_keeps_fit<EdgeData, T: TileSetVirtual<EdgeData>, M: EntropyMeasure>(
    tile_set: &T,
    measure: &M,
    slots: Seq<Seq<Option<CellId>>>,
    progress: Progress,
    max_depth: usize,
    fuel: nat,
    fit: spec_fn(int, TileId, TileId) -> bool,
    reverse: spec_fn(int) -> int,
)
    requires
        slots_in_range(slots),
        is_two_way(slots, reverse),
        judge_is_local(tile_set, fit),
        fit_is_mutual(fit, reverse),
        progress.cells.len() == slots.len(),
        slots.len() < usize::MAX,
        forall|i: int| 0 <= i < progress.cells.len() ==> (#[trigger] progress.cells[i]).wf(),
        progress.count == collapsed_count(progress.cells),
        cells_fit(slots, progress.cells, fit),
    ensures
        ({
            let end = crate::wfc_manager::ran_from(
                tile_set,
                measure,
                slots,
                progress,
                max_depth,
                fuel,
            );
            end.0 is Ok ==> {
                &&& cells_fit(slots, end.1.cells, fit)
                &&& end.1.count == slots.len()
                &&& end.1.cells.len() == slots.len()
                &&& forall|c: int|
                    0 <= c < end.1.cells.len() ==> (#[trigger] end.1.cells[c]).state
                        == CellState::Collapsed
            }
        }),
    decreases fuel,
{
    if progress.count == slots.len() {
        lemma_collapsed_count_bound(progress.cells);
        crate::wfc_manager::lemma_conflicts_listed(progress.cells);
    } else if fuel > 0 {
        lemma_step_keeps_fit(tile_set, measure, slots, progress, fit, reverse);
        if collapsed_once(tile_set, measure, slots, progress) is Some {
            let next = collapsed_once(tile_set, measure, slots, progress)->0;
            lemma_run_keeps_fit(
                tile_set,
                measure,
                slots,
                next,
                max_depth,
                (fuel - 1) as nat,
                fit,
                reverse,
            );
        }
    }
}

} // verus!

//! The repair of conflicts, in layers.
//!
//! The cells in conflict form the innermost layer. Each further layer holds
//! the collapsed cells around the layer before it. The cells of all layers
//! are opened again, from the outermost layer inward, and a search with a
//! bounded depth looks for tiles for them, the outermost cells first.

use crate::entropy::{calculate_entropy, entropy_of, EntropyMeasure};
use crate::grid_system::GridSystem;
use crate::propagation::{
    compatible_tiles, copy_tiles, filter_by_sets, neighbor_sets, neighbors_of, repeatable,
    tile_is_compatible,
};
use crate::tile_set::{answers_are_functions, ask_catalog, catalog, judge, TileSetVirtual};
use crate::wfc_manager::{CellState, CellView, CellWfcData, SystemSnapshot};
use crate::wfc_util::{find_in_2d_vector, is_first_match, CellId, TileId};
use vstd::prelude::*;
use vstd::std_specs::cmp::PartialEqSpec;

verus! {

/// The count of collapses after one more; it stops at the greatest number.
pub open spec fn count_up(count: usize) -> usize {
    if count < usize::MAX {
        (count + 1) as usize
    } else {
        count
    }
}

/// The cells after one of them has been decided for a tile.
pub open spec fn with_tile(cells: Seq<CellView>, cell_id: CellId, tile: TileId) -> Seq<CellView> {
    cells.update(cell_id as int, cells[cell_id as int].collapsed_to(tile))
}

/// The cells keep their seeds and numbers, and the cells that were well
/// formed are so still.
pub open spec fn cells_persist(before: Seq<CellView>, after: Seq<CellView>) -> bool {
    &&& after.len() == before.len()
    &&& forall|i: int|
        0 <= i < before.len() ==> {
            &&& (#[trigger] after[i]).rand_seed == before[i].rand_seed
            &&& after[i].rand_num == before[i].rand_num
            &&& before[i].wf() ==> after[i].wf()
        }
}

/// Decides a cell for a tile: the tile becomes its one possibility, its
/// entropy 0, its state collapsed, and the count of collapses goes up by one.
pub fn set_tile_for_cell(
    cells: &mut Vec<CellWfcData>,
    completed_count: &mut usize,
    cell_id: CellId,
    tile_id: TileId,
)
    requires
        cell_id < old(cells).len(),
    ensures
        final(cells).deep_view() == with_tile(old(cells).deep_view(), cell_id, tile_id),
        *final(completed_count) == count_up(*old(completed_count)),
        cells_persist(old(cells).deep_view(), final(cells).deep_view()),
{
    let mut possibilities: Vec<TileId> = Vec::new();
    possibilities.push(tile_id);
    let collapsed = CellWfcData {
        state: CellState::Collapsed,
        entropy: 0,
        rand_seed: cells[cell_id].rand_seed,
        rand_num: cells[cell_id].rand_num,
        possibilities,
    };
    cells.set(cell_id, collapsed);
    if *completed_count < usize::MAX {
        *completed_count = *completed_count + 1;
    }
    proof {
        assert(collapsed.possibilities@ =~= seq![tile_id]);
        assert(cells.deep_view() =~= with_tile(old(cells).deep_view(), cell_id, tile_id));
    }
}

/// The layer of a cell: the position of the first layer that holds it, and
/// the number of layers for a cell that no layer holds.
pub open spec fn layer_of(layers: Seq<Seq<CellId>>, cell: CellId) -> int
    decreases layers.len(),
{
    if layers.len() == 0 {
        0
    } else if layers.first().contains(cell) {
        0
    } else {
        1 + layer_of(layers.drop_first(), cell)
    }
}

/// The layer of a cell is the first that holds it.
pub proof fn lemma_layer_of(layers: Seq<Seq<CellId>>, cell: CellId, level: int)
    requires
        0 <= level <= layers.len(),
        forall|i: int| 0 <= i < level ==> !(#[trigger] layers[i]).contains(cell),
        level < layers.len() ==> layers[level].contains(cell),
    ensures
        layer_of(layers, cell) == level,
    decreases layers.len(),
{
    if layers.len() > 0 && level > 0 {
        let rest = layers.drop_first();
        assert forall|i: int| 0 <= i < level - 1 implies !(#[trigger] rest[i]).contains(cell) by {
            assert(rest[i] == layers[i + 1]);
        }
        if level < layers.len() {
            assert(rest[level - 1] == layers[level]);
        }
        lemma_layer_of(rest, cell, level - 1);
    }
}

/// The layer of a cell lies between 0 and the number of layers.
pub proof fn lemma_layer_of_range(layers: Seq<Seq<CellId>>, cell: CellId)
    ensures
        0 <= layer_of(layers, cell) <= layers.len(),
        layer_of(layers, cell) < layers.len() ==> layers[layer_of(layers, cell)].contains(cell),
    decreases layers.len(),
{
    if layers.len() > 0 && !layers.first().contains(cell) {
        lemma_layer_of_range(layers.drop_first(), cell);
        let rest = layers.drop_first();
        if layer_of(rest, cell) < rest.len() {
            assert(rest[layer_of(rest, cell)] == layers[layer_of(rest, cell) + 1]);
        }
    }
}

/// Finds the layer of a cell.
pub fn find_layer(layers: &Vec<Vec<CellId>>, cell: CellId) -> (level: usize)
    ensures
        level == layer_of(layers.deep_view(), cell),
        level <= layers.len(),
{
    let found = find_in_2d_vector(layers, &cell);
    let ghost model = layers.deep_view();
    proof {
        assert forall|i: int| 0 <= i < layers.len() implies #[trigger] model[i] == layers[i]@ by {
            assert(layers[i].deep_view() =~= layers[i]@);
        }
    }
    match found {
        Some((row, col)) => {
            proof {
                assert(is_first_match(layers@, &cell, row as int, col as int));
                assert(layers@[row as int]@[col as int] == cell);
                assert(model[row as int].contains(cell));
                assert forall|i: int| 0 <= i < row implies !(#[trigger] model[i]).contains(
                    cell,
                ) by {
                    if model[i].contains(cell) {
                        let j = choose|j: int| 0 <= j < model[i].len() && model[i][j] == cell;
                        assert(layers@[i][j].eq_spec(&cell));
                    }
                }
                lemma_layer_of(model, cell, row as int);
            }
            row
        },
        None => {
            proof {
                assert forall|i: int| 0 <= i < layers.len() implies !(#[trigger] model[i]).contains(
                    cell,
                ) by {
                    if model[i].contains(cell) {
                        let j = choose|j: int| 0 <= j < model[i].len() && model[i][j] == cell;
                        assert(layers@[i][j].eq_spec(&cell));
                    }
                }
                lemma_layer_of(model, cell, layers.len() as int);
            }
            layers.len()
        },
    }
}

/// The sets of tiles that constrain a cell of layer `level` when it is
/// opened again: for each slot the possibilities of the neighbour where the
/// neighbour lies in the same layer or further out, and the empty set, which
/// does not constrain, where it lies further in, has no state, or is missing.
pub open spec fn restricted_sets(
    cells: Seq<CellView>,
    slots: Seq<Option<CellId>>,
    layers: Seq<Seq<CellId>>,
    level: int,
) -> Seq<Seq<TileId>> {
    Seq::new(
        slots.len(),
        |k: int|
            match slots[k] {
                Some(n) => if layer_of(layers, n) >= level && n < cells.len() {
                    cells[n as int].possibilities
                } else {
                    Seq::empty()
                },
                None => Seq::empty(),
            },
    )
}

/// Gathers the sets of tiles that constrain a cell when it is opened again.
pub fn collect_restricted_sets(
    cells: &Vec<CellWfcData>,
    slots: &Vec<Option<CellId>>,
    layers: &Vec<Vec<CellId>>,
    level: usize,
) -> (sets: Vec<Vec<TileId>>)
    ensures
        sets.deep_view() == restricted_sets(
            cells.deep_view(),
            slots@,
            layers.deep_view(),
            level as int,
        ),
{
    let mut sets: Vec<Vec<TileId>> = Vec::new();
    let mut k: usize = 0;
    let ghost model = restricted_sets(cells.deep_view(), slots@, layers.deep_view(), level as int);
    while k < slots.len()
        invariant
            k <= slots.len(),
            sets.len() == k,
            model == restricted_sets(cells.deep_view(), slots@, layers.deep_view(), level as int),
            forall|i: int| 0 <= i < k ==> (#[trigger] sets[i])@ == model[i],
        decreases slots.len() - k,
    {
        let set = match slots[k] {
            Some(n) => {
                let neighbor_level = find_layer(layers, n);
                if neighbor_level >= level && n < cells.len() {
                    copy_tiles(&cells[n].possibilities)
                } else {
                    Vec::new()
                }
            },
            None => Vec::new(),
        };
        sets.push(set);
        k += 1;
    }
    proof {
        let got = sets.deep_view();
        assert forall|i: int| 0 <= i < sets.len() implies #[trigger] got[i] == model[i] by {
            assert(sets[i].deep_view() =~= sets[i]@);
        }
        assert(got =~= model);
    }
    sets
}

/// The cells after one cell of the layers has been opened again: it can be
/// every tile of the catalog that the tile set accepts beside the
/// restricted sets of its neighbours.
pub open spec fn recovered<EdgeData, T: TileSetVirtual<EdgeData>, M: EntropyMeasure>(
    tile_set: &T,
    measure: &M,
    slots: Seq<Seq<Option<CellId>>>,
    cells: Seq<CellView>,
    layers: Seq<Seq<CellId>>,
    cell_id: CellId,
) -> Seq<CellView> {
    let kept = compatible_tiles(
        tile_set,
        restricted_sets(cells, slots[cell_id as int], layers, layer_of(layers, cell_id)),
        catalog(tile_set),
    );
    cells.update(
        cell_id as int,
        cells[cell_id as int].reopened(kept, entropy_of(tile_set, measure, kept)),
    )
}

/// Only the cell `cell_id` differs, and it has been opened again: it keeps
/// its seed and number, and is open with some tiles or in conflict with none.
pub open spec fn is_reopening(before: Seq<CellView>, after: Seq<CellView>, cell_id: CellId) -> bool {
    &&& after.len() == before.len()
    &&& forall|i: int| 0 <= i < before.len() && i != cell_id ==> #[trigger] after[i] == before[i]
    &&& after[cell_id as int].rand_seed == before[cell_id as int].rand_seed
    &&& after[cell_id as int].rand_num == before[cell_id as int].rand_num
    &&& after[cell_id as int].state == if after[cell_id as int].possibilities.len() == 0 {
        CellState::Conflict
    } else {
        CellState::Uncollapsed
    }
}

/// Opens a cell of the layers again: its possibilities become the tiles of
/// the catalog that the tile set accepts beside what the neighbours in its
/// own layer and further out can be, in the order of the catalog.
pub fn recover_cell_possibilities<EdgeData, T: TileSetVirtual<EdgeData>, M: EntropyMeasure>(
    grid: &GridSystem,
    tile_set: &T,
    measure: &M,
    cells: &mut Vec<CellWfcData>,
    cell_id: CellId,
    layers: &Vec<Vec<CellId>>,
)
    requires
        cell_id < old(cells).len(),
        old(cells).len() == grid.cell_count(),
    ensures
        is_reopening(old(cells).deep_view(), final(cells).deep_view(), cell_id),
        cells_persist(old(cells).deep_view(), final(cells).deep_view()),
        exists|ids: Seq<TileId>|
            crate::tile_set::ids_may_be(tile_set, ids) && #[trigger] crate::propagation::is_selection(
                ids,
                final(cells).deep_view()[cell_id as int].possibilities,
            ),
        repeatable(tile_set, measure) ==> final(cells).deep_view() == recovered(
            tile_set,
            measure,
            grid.neighbor_slots(),
            old(cells).deep_view(),
            layers.deep_view(),
            cell_id,
        ),
{
    let ghost before = cells.deep_view();
    let level = find_layer(layers, cell_id);
    let slots = grid.get_neighbor_slots(cell_id);
    let sets = collect_restricted_sets(cells, &slots, layers, level);
    let all_tiles = ask_catalog(tile_set);
    let kept = filter_by_sets(tile_set, &sets, &all_tiles);
    let entropy = calculate_entropy(tile_set, measure, &kept);
    let state = if kept.len() == 0 {
        CellState::Conflict
    } else {
        CellState::Uncollapsed
    };
    let reopened = CellWfcData {
        state,
        entropy,
        rand_seed: cells[cell_id].rand_seed,
        rand_num: cells[cell_id].rand_num,
        possibilities: kept,
    };
    cells.set(cell_id, reopened);
    proof {
        assert(crate::propagation::is_selection(
            all_tiles@,
            cells.deep_view()[cell_id as int].possibilities,
        ));
        let after = cells.deep_view();
        assert forall|i: int| 0 <= i < before.len() && i != cell_id implies #[trigger] after[i]
            == before[i] by {}
        if repeatable(tile_set, measure) {
            assert(after =~= recovered(
                tile_set,
                measure,
                grid.neighbor_slots(),
                before,
                layers.deep_view(),
                cell_id,
            ));
        }
    }
}

/// Whether some layer holds the cell.
pub open spec fn in_layers(layers: Seq<Seq<CellId>>, cell: CellId) -> bool {
    exists|l: int| 0 <= l < layers.len() && (#[trigger] layers[l]).contains(cell)
}

/// Every cell of the layers is one of the first `count` cells.
pub open spec fn layers_in_range(layers: Seq<Seq<CellId>>, count: nat) -> bool {
    forall|l: int, j: int|
        0 <= l < layers.len() && 0 <= j < layers[l].len() ==> (#[trigger] layers[l][j]) < count
}

/// A cell is in the layers exactly when its layer is one of them.
pub proof fn lemma_in_layers(layers: Seq<Seq<CellId>>, cell: CellId)
    ensures
        in_layers(layers, cell) <==> layer_of(layers, cell) < layers.len(),
{
    lemma_layer_of_range(layers, cell);
    if in_layers(layers, cell) && layer_of(layers, cell) >= layers.len() {
        let l = choose|l: int| 0 <= l < layers.len() && (#[trigger] layers[l]).contains(cell);
        lemma_layer_of_first(layers, cell, l);
    }
}

/// The layer of a cell is no later than any layer that holds it.
pub proof fn lemma_layer_of_first(layers: Seq<Seq<CellId>>, cell: CellId, level: int)
    requires
        0 <= level < layers.len(),
        layers[level].contains(cell),
    ensures
        layer_of(layers, cell) <= level,
    decreases layers.len(),
{
    if !layers.first().contains(cell) {
        let rest = layers.drop_first();
        assert(rest[level - 1] == layers[level]);
        lemma_layer_of_first(rest, cell, level - 1);
    }
}

/// The deep view of a list of layers holds the views of the layers.
pub proof fn lemma_layers_view(layers: Vec<Vec<CellId>>)
    ensures
        layers.deep_view().len() == layers.len(),
        forall|l: int| 0 <= l < layers.len() ==> #[trigger] layers.deep_view()[l] == layers[l]@,
{
    assert forall|l: int| 0 <= l < layers.len() implies #[trigger] layers.deep_view()[l]
        == layers[l]@ by {
        assert(layers[l].deep_view() =~= layers[l]@);
    }
}

/// The cells after the cells of one layer have been opened again, in the
/// order of the layer, from position `from` on.
pub open spec fn recovered_layer<EdgeData, T: TileSetVirtual<EdgeData>, M: EntropyMeasure>(
    tile_set: &T,
    measure: &M,
    slots: Seq<Seq<Option<CellId>>>,
    cells: Seq<CellView>,
    layers: Seq<Seq<CellId>>,
    layer: Seq<CellId>,
    from: int,
) -> Seq<CellView>
    decreases layer.len() - from,
{
    if from < 0 || from >= layer.len() {
        cells
    } else {
        recovered_layer(
            tile_set,
            measure,
            slots,
            recovered(tile_set, measure, slots, cells, layers, layer[from]),
            layers,
            layer,
            from + 1,
        )
    }
}

/// The cells after the cells of the first `upto` layers have been opened
/// again, the outermost of these layers first.
pub open spec fn recovered_layers<EdgeData, T: TileSetVirtual<EdgeData>, M: EntropyMeasure>(
    tile_set: &T,
    measure: &M,
    slots: Seq<Seq<Option<CellId>>>,
    cells: Seq<CellView>,
    layers: Seq<Seq<CellId>>,
    upto: int,
) -> Seq<CellView>
    decreases upto,
{
    if upto <= 0 || upto > layers.len() {
        cells
    } else {
        recovered_layers(
            tile_set,
            measure,
            slots,
            recovered_layer(tile_set, measure, slots, cells, layers, layers[upto - 1], 0),
            layers,
            upto - 1,
        )
    }
}

/// What holds of the cells while the layers are opened again: they keep
/// seeds and numbers, the cells outside the layers are as they were, and
/// no cell of a layer from `done` on is collapsed.
pub open spec fn opening(
    before: Seq<CellView>,
    now: Seq<CellView>,
    layers: Seq<Seq<CellId>>,
    done: int,
) -> bool {
    &&& cells_persist(before, now)
    &&& forall|c: int|
        0 <= c < before.len() && !in_layers(layers, c as usize) ==> #[trigger] now[c] == before[c]
    &&& forall|l: int, j: int|
        done <= l < layers.len() && 0 <= j < layers[l].len() ==> now[(#[trigger] layers[l][j]) as int].state
            != CellState::Collapsed
}

/// Opens the cells of all layers again, from the outermost layer inward
/// and each layer in its order.
pub fn recover_layers<EdgeData, T: TileSetVirtual<EdgeData>, M: EntropyMeasure>(
    grid: &GridSystem,
    tile_set: &T,
    measure: &M,
    cells: &mut Vec<CellWfcData>,
    layers: &Vec<Vec<CellId>>,
)
    requires
        old(cells).len() == grid.cell_count(),
        layers_in_range(layers.deep_view(), old(cells).len() as nat),
    ensures
        opening(old(cells).deep_view(), final(cells).deep_view(), layers.deep_view(), 0),
        repeatable(tile_set, measure) ==> final(cells).deep_view() == recovered_layers(
            tile_set,
            measure,
            grid.neighbor_slots(),
            old(cells).deep_view(),
            layers.deep_view(),
            layers.len() as int,
        ),
{
    let ghost before = cells.deep_view();
    let ghost slots = grid.neighbor_slots();
    let ghost model = layers.deep_view();
    let mut upto: usize = layers.len();
    proof {
        lemma_layers_view(*layers);
    }
    while upto > 0
        invariant
            upto <= layers.len(),
            cells.len() == grid.cell_count(),
            cells.len() == before.len(),
            slots == grid.neighbor_slots(),
            model == layers.deep_view(),
            model.len() == layers.len(),
            forall|l: int| 0 <= l < layers.len() ==> #[trigger] model[l] == layers[l]@,
            layers_in_range(model, cells.len() as nat),
            opening(before, cells.deep_view(), model, upto as int),
            repeatable(tile_set, measure) ==> recovered_layers(
                tile_set,
                measure,
                slots,
                cells.deep_view(),
                model,
                upto as int,
            ) == recovered_layers(tile_set, measure, slots, before, model, layers.len() as int),
        decreases upto,
    {
        upto -= 1;
        let layer = &layers[upto];
        let ghost at_layer = cells.deep_view();
        let mut j: usize = 0;
        while j < layer.len()
            invariant
                upto < layers.len(),
                layer == &layers[upto as int],
                j <= layer.len(),
                cells.len() == grid.cell_count(),
                cells.len() == before.len(),
                slots == grid.neighbor_slots(),
                model == layers.deep_view(),
                model.len() == layers.len(),
                forall|l: int| 0 <= l < layers.len() ==> #[trigger] model[l] == layers[l]@,
                layers_in_range(model, cells.len() as nat),
                opening(before, cells.deep_view(), model, upto as int + 1),
                forall|k: int|
                    0 <= k < j ==> cells.deep_view()[(#[trigger] layer[k]) as int].state
                        != CellState::Collapsed,
                repeatable(tile_set, measure) ==> recovered_layer(
                    tile_set,
                    measure,
                    slots,
                    cells.deep_view(),
                    model,
                    layer@,
                    j as int,
                ) == recovered_layer(tile_set, measure, slots, at_layer, model, layer@, 0),
            decreases layer.len() - j,
        {
            let cell_id = layer[j];
            let ghost here = cells.deep_view();
            proof {
                assert(model[upto as int][j as int] == cell_id);
                assert(model[upto as int].contains(cell_id));
                assert(in_layers(model, cell_id));
            }
            recover_cell_possibilities(grid, tile_set, measure, cells, cell_id, layers);
            proof {
                let after = cells.deep_view();
                assert(is_reopening(here, after, cell_id));
                assert forall|c: int|
                    0 <= c < before.len() && !in_layers(model, c as usize) implies #[trigger] after[c]
                    == before[c] by {
                    assert(after[c] == here[c]);
                }
                assert forall|l: int, i: int|
                    upto + 1 <= l < layers.len() && 0 <= i < model[l].len() implies after[(
                    #[trigger] model[l][i]) as int].state != CellState::Collapsed by {
                    if model[l][i] != cell_id {
                        assert(after[model[l][i] as int] == here[model[l][i] as int]);
                    }
                }
                assert forall|k: int| 0 <= k < j + 1 implies after[(#[trigger] layer[k]) as int].state
                    != CellState::Collapsed by {
                    if layer[k] != cell_id {
                        assert(after[layer[k] as int] == here[layer[k] as int]);
                    }
                }
                lemma_cells_persist_twice(before, here, after);
            }
            j += 1;
        }
        proof {
            let after = cells.deep_view();
            assert forall|l: int, i: int|
                upto <= l < layers.len() && 0 <= i < model[l].len() implies after[(
                #[trigger] model[l][i]) as int].state != CellState::Collapsed by {
                if l == upto {
                    assert(model[l][i] == layer[i]);
                }
            }
        }
    }
}

/// Persisting twice is persisting.
pub proof fn lemma_cells_persist_twice(a: Seq<CellView>, b: Seq<CellView>, c: Seq<CellView>)
    requires
        cells_persist(a, b),
        cells_persist(b, c),
    ensures
        cells_persist(a, c),
{
    assert forall|i: int| 0 <= i < a.len() implies {
        &&& (#[trigger] c[i]).rand_seed == a[i].rand_seed
        &&& c[i].rand_num == a[i].rand_num
        &&& a[i].wf() ==> c[i].wf()
    } by {
        assert(b[i].rand_seed == a[i].rand_seed);
    }
}

/// The order in which the search takes the cells: the cells of the
/// outermost layer first and those of the innermost last, each layer in
/// its own order.
pub open spec fn repair_order(layers: Seq<Seq<CellId>>) -> Seq<CellId>
    decreases layers.len(),
{
    if layers.len() == 0 {
        Seq::empty()
    } else {
        layers.last() + repair_order(layers.drop_last())
    }
}

/// The order of the search holds the cells of the layers and no others.
pub proof fn lemma_repair_order_members(layers: Seq<Seq<CellId>>, cell: CellId)
    ensures
        repair_order(layers).contains(cell) <==> in_layers(layers, cell),
    decreases layers.len(),
{
    if layers.len() > 0 {
        let rest = layers.drop_last();
        lemma_repair_order_members(rest, cell);
        let order = repair_order(layers);
        if order.contains(cell) {
            let i = choose|i: int| 0 <= i < order.len() && order[i] == cell;
            if i < layers.last().len() {
                assert(layers.last()[i] == cell);
                assert(layers[layers.len() - 1].contains(cell));
            } else {
                assert(repair_order(rest)[i - layers.last().len()] == cell);
                let l = choose|l: int| 0 <= l < rest.len() && (#[trigger] rest[l]).contains(cell);
                assert(layers[l] == rest[l]);
            }
        }
        if in_layers(layers, cell) {
            let l = choose|l: int| 0 <= l < layers.len() && (#[trigger] layers[l]).contains(cell);
            if l == layers.len() - 1 {
                let j = choose|j: int| 0 <= j < layers[l].len() && layers[l][j] == cell;
                assert(order[j] == cell);
            } else {
                assert(rest[l] == layers[l]);
                assert(in_layers(rest, cell));
                let i = choose|i: int|
                    0 <= i < repair_order(rest).len() && repair_order(rest)[i] == cell;
                assert(order[layers.last().len() + i] == cell);
            }
        }
    }
}

/// Lists the cells of the layers in the order of the search.
pub fn order_for_repair(layers: &Vec<Vec<CellId>>) -> (order: Vec<CellId>)
    ensures
        order@ == repair_order(layers.deep_view()),
{
    let mut order: Vec<CellId> = Vec::new();
    let ghost model = layers.deep_view();
    let mut upto: usize = layers.len();
    proof {
        lemma_layers_view(*layers);
        assert(model.take(upto as int) =~= model);
    }
    while upto > 0
        invariant
            upto <= layers.len(),
            model == layers.deep_view(),
            model.len() == layers.len(),
            forall|l: int| 0 <= l < layers.len() ==> #[trigger] model[l] == layers[l]@,
            order@ + repair_order(model.take(upto as int)) == repair_order(model),
        decreases upto,
    {
        upto -= 1;
        let layer = &layers[upto];
        let ghost listed = order@;
        proof {
            assert(model.take(upto + 1).drop_last() =~= model.take(upto as int));
            assert(model.take(upto + 1).last() == layer@);
        }
        let mut j: usize = 0;
        while j < layer.len()
            invariant
                j <= layer.len(),
                order@ == listed + layer@.take(j as int),
            decreases layer.len() - j,
        {
            order.push(layer[j]);
            proof {
                assert(layer@.take(j + 1) =~= layer@.take(j as int).push(layer@[j as int]));
                assert(order@ =~= listed + layer@.take(j + 1));
            }
            j += 1;
        }
        proof {
            assert(layer@.take(j as int) =~= layer@);
            assert(order@ + repair_order(model.take(upto as int)) =~= listed + repair_order(
                model.take(upto + 1),
            ));
        }
    }
    proof {
        assert(model.take(0) =~= Seq::<Seq<CellId>>::empty());
        assert(order@ + Seq::<CellId>::empty() =~= order@);
    }
    order
}

/// Whether the list holds the cell.
pub fn holds(list: &Vec<CellId>, cell: CellId) -> (found: bool)
    ensures
        found == list@.contains(cell),
{
    let mut i: usize = 0;
    while i < list.len()
        invariant
            i <= list.len(),
            forall|k: int| 0 <= k < i ==> list[k] != cell,
        decreases list.len() - i,
    {
        if list[i] == cell {
            return true;
        }
        i += 1;
    }
    false
}

/// Whether a neighbour joins the next layer: it is collapsed, no layer
/// holds it, and the next layer does not hold it yet.
pub open spec fn joins_layer(
    cells: Seq<CellView>,
    layers: Seq<Seq<CellId>>,
    next: Seq<CellId>,
    neighbor: CellId,
) -> bool {
    &&& neighbor < cells.len()
    &&& cells[neighbor as int].state == CellState::Collapsed
    &&& !next.contains(neighbor)
    &&& !in_layers(layers, neighbor)
}

/// The next layer after the neighbours of one cell, from position `from`
/// on, have been looked at.
pub open spec fn extended_by(
    cells: Seq<CellView>,
    layers: Seq<Seq<CellId>>,
    next: Seq<CellId>,
    neighbors: Seq<CellId>,
    from: int,
) -> Seq<CellId>
    decreases neighbors.len() - from,
{
    if from < 0 || from >= neighbors.len() {
        next
    } else {
        extended_by(
            cells,
            layers,
            if joins_layer(cells, layers, next, neighbors[from]) {
                next.push(neighbors[from])
            } else {
                next
            },
            neighbors,
            from + 1,
        )
    }
}

/// The next layer after the cells of the current layer, from position
/// `from` on, have been looked at.
pub open spec fn next_layer_from(
    slots: Seq<Seq<Option<CellId>>>,
    cells: Seq<CellView>,
    layers: Seq<Seq<CellId>>,
    current: Seq<CellId>,
    from: int,
    next: Seq<CellId>,
) -> Seq<CellId>
    decreases current.len() - from,
{
    if from < 0 || from >= current.len() {
        next
    } else {
        next_layer_from(
            slots,
            cells,
            layers,
            current,
            from + 1,
            extended_by(cells, layers, next, neighbors_of(slots, current[from]), 0),
        )
    }
}

/// The layer after the last: the collapsed neighbours of the cells of the
/// last layer that no layer holds, each once, in the order in which the
/// cells of the last layer and their neighbour slots give them.
pub open spec fn next_layer(
    slots: Seq<Seq<Option<CellId>>>,
    cells: Seq<CellView>,
    layers: Seq<Seq<CellId>>,
) -> Seq<CellId> {
    if layers.len() == 0 {
        Seq::empty()
    } else {
        next_layer_from(slots, cells, layers, layers.last(), 0, Seq::empty())
    }
}

/// What holds of a layer while it is built: its cells are collapsed cells
/// that no layer holds.
pub open spec fn is_fresh_layer(
    cells: Seq<CellView>,
    layers: Seq<Seq<CellId>>,
    next: Seq<CellId>,
) -> bool {
    forall|i: int|
        0 <= i < next.len() ==> {
            &&& (#[trigger] next[i]) < cells.len()
            &&& cells[next[i] as int].state == CellState::Collapsed
            &&& !in_layers(layers, next[i])
        }
}

/// Builds the layer after the last: the collapsed cells around the last
/// layer that are in no layer yet.
pub fn build_next_layer(grid: &GridSystem, cells: &Vec<CellWfcData>, layers: &Vec<Vec<CellId>>) -> (next:
    Vec<CellId>)
    requires
        grid.wf(),
        cells.len() == grid.cell_count(),
    ensures
        next@ == next_layer(grid.neighbor_slots(), cells.deep_view(), layers.deep_view()),
        is_fresh_layer(cells.deep_view(), layers.deep_view(), next@),
{
    let mut next: Vec<CellId> = Vec::new();
    if layers.len() == 0 {
        return next;
    }
    let ghost slots = grid.neighbor_slots();
    let ghost model = layers.deep_view();
    let ghost view = cells.deep_view();
    proof {
        lemma_layers_view(*layers);
    }
    let current = &layers[layers.len() - 1];
    let mut i: usize = 0;
    while i < current.len()
        invariant
            grid.wf(),
            cells.len() == grid.cell_count(),
            slots == grid.neighbor_slots(),
            model == layers.deep_view(),
            view == cells.deep_view(),
            layers.len() > 0,
            current@ == model.last(),
            i <= current.len(),
            is_fresh_layer(view, model, next@),
            next_layer_from(slots, view, model, current@, i as int, next@) == next_layer(
                slots,
                view,
                model,
            ),
        decreases current.len() - i,
    {
        let cell = current[i];
        let neighbors = grid.get_neighbors(cell);
        let ghost at_cell = next@;
        proof {
            assert(neighbors@ == neighbors_of(slots, cell));
        }
        let mut j: usize = 0;
        while j < neighbors.len()
            invariant
                cells.len() == grid.cell_count(),
                model == layers.deep_view(),
                view == cells.deep_view(),
                j <= neighbors.len(),
                is_fresh_layer(view, model, next@),
                extended_by(view, model, next@, neighbors@, j as int) == extended_by(
                    view,
                    model,
                    at_cell,
                    neighbors@,
                    0,
                ),
            decreases neighbors.len() - j,
        {
            let neighbor = neighbors[j];
            if neighbor < cells.len() {
                if cells[neighbor].state == CellState::Collapsed && !holds(&next, neighbor) {
                    let level = find_layer(layers, neighbor);
                    proof {
                        lemma_in_layers(model, neighbor);
                    }
                    if level == layers.len() {
                        next.push(neighbor);
                    }
                }
            }
            j += 1;
        }
        i += 1;
    }
    next
}

/// How a search ended: whether it found tiles, and the cells and the
/// count of collapses that it left.
pub struct Outcome {
    pub solved: bool,
    pub cells: Seq<CellView>,
    pub count: usize,
}

/// The outcome of the search from position `index` of the order on.
///
/// No cell left to decide: found. A cell without a tile left: not found.
/// The last cell takes its first possibility. Any other cell tries its
/// possibilities in order (see [`tried_from`]).
pub open spec fn solved_from<EdgeData, T: TileSetVirtual<EdgeData>>(
    tile_set: &T,
    slots: Seq<Seq<Option<CellId>>>,
    cells: Seq<CellView>,
    count: usize,
    order: Seq<CellId>,
    index: int,
) -> Outcome
    decreases order.len() - index, cells[order[index] as int].possibilities.len() + 1,
{
    if index < 0 || index >= order.len() {
        Outcome { solved: true, cells, count }
    } else {
        let cell_id = order[index];
        let candidates = cells[cell_id as int].possibilities;
        if candidates.len() == 0 {
            Outcome { solved: false, cells, count }
        } else if index == order.len() - 1 {
            Outcome {
                solved: true,
                cells: with_tile(cells, cell_id, candidates[0]),
                count: count_up(count),
            }
        } else {
            tried_from(tile_set, slots, cells, count, order, index, candidates, 0)
        }
    }
}

/// The outcome of trying the candidates for the cell at position `index`,
/// from candidate `from` on. A candidate that the tile set accepts beside
/// what the neighbours can be is set, and the search goes on with the
/// next cell; where that fails, the cells and the count are put back and
/// the next candidate is tried. Not found when no candidate is left.
pub open spec fn tried_from<EdgeData, T: TileSetVirtual<EdgeData>>(
    tile_set: &T,
    slots: Seq<Seq<Option<CellId>>>,
    cells: Seq<CellView>,
    count: usize,
    order: Seq<CellId>,
    index: int,
    candidates: Seq<TileId>,
    from: int,
) -> Outcome
    decreases order.len() - index, candidates.len() - from,
{
    if index < 0 || index >= order.len() || from < 0 || from >= candidates.len() {
        Outcome { solved: false, cells, count }
    } else {
        let cell_id = order[index];
        let accepted = judge(
            tile_set,
            neighbor_sets(cells, slots[cell_id as int], catalog(tile_set)),
            candidates[from],
        );
        if accepted {
            let attempt = solved_from(
                tile_set,
                slots,
                with_tile(cells, cell_id, candidates[from]),
                count_up(count),
                order,
                index + 1,
            );
            if attempt.solved {
                attempt
            } else {
                tried_from(tile_set, slots, cells, count, order, index, candidates, from + 1)
            }
        } else {
            tried_from(tile_set, slots, cells, count, order, index, candidates, from + 1)
        }
    }
}

/// What holds after a search from position `index` on, whatever the tile
/// set answered: the cells keep seeds and numbers, the cells that are not
/// in the rest of the order are as they were, a search that found tiles
/// left every cell of the rest of the order collapsed to one of the tiles
/// that it held at the start, and one that did not left everything as it was.
pub open spec fn search_result(
    before: Seq<CellView>,
    before_count: usize,
    after: Seq<CellView>,
    after_count: usize,
    order: Seq<CellId>,
    index: int,
    solved: bool,
) -> bool {
    &&& cells_persist(before, after)
    &&& forall|c: int|
        0 <= c < before.len() && !order.skip(index).contains(c as usize) ==> #[trigger] after[c]
            == before[c]
    &&& solved ==> forall|k: int|
        index <= k < order.len() ==> after[(#[trigger] order[k]) as int].state
            == CellState::Collapsed
    &&& solved ==> forall|k: int|
        index <= k < order.len() ==> is_decided_from(
            before[(#[trigger] order[k]) as int],
            after[order[k] as int],
        )
    &&& !solved ==> after == before && after_count == before_count
}

/// The cell has been decided for one of the tiles that it held before,
/// and is as it was in all else.
pub open spec fn is_decided_from(before: CellView, after: CellView) -> bool {
    exists|tile: TileId|
        before.possibilities.contains(tile) && after == #[trigger] before.collapsed_to(tile)
}

/// The search: looks for tiles for the cells of the order from position
/// `index` on, so that each tile is accepted by the tile set when it is set.
pub fn backtrack_solution<EdgeData, T: TileSetVirtual<EdgeData>>(
    grid: &GridSystem,
    tile_set: &T,
    cells: &mut Vec<CellWfcData>,
    completed_count: &mut usize,
    order: &Vec<CellId>,
    index: usize,
) -> (solved: bool)
    requires
        old(cells).len() == grid.cell_count(),
        forall|k: int| 0 <= k < order.len() ==> #[trigger] order[k] < old(cells).len(),
    ensures
        search_result(
            old(cells).deep_view(),
            *old(completed_count),
            final(cells).deep_view(),
            *final(completed_count),
            order@,
            index as int,
            solved,
        ),
        answers_are_functions(tile_set) ==> (Outcome {
            solved,
            cells: final(cells).deep_view(),
            count: *final(completed_count),
        }) == solved_from(
            tile_set,
            grid.neighbor_slots(),
            old(cells).deep_view(),
            *old(completed_count),
            order@,
            index as int,
        ),
    decreases order.len() - index,
{
    let ghost before = cells.deep_view();
    let ghost before_count = *completed_count;
    let ghost slots = grid.neighbor_slots();
    if index >= order.len() {
        proof {
            assert(cells_persist(before, before));
        }
        return true;
    }
    let cell_id = order[index];
    if cells[cell_id].possibilities.len() == 0 {
        proof {
            assert(cells_persist(before, before));
        }
        return false;
    }
    if index == order.len() - 1 {
        let first = cells[cell_id].possibilities[0];
        set_tile_for_cell(cells, completed_count, cell_id, first);
        proof {
            assert(order@.skip(index as int)[0] == cell_id);
        }
        return true;
    }
    let snapshot = SystemSnapshot::take(cells, *completed_count);
    let candidates = copy_tiles(&cells[cell_id].possibilities);
    let mut from: usize = 0;
    proof {
        assert(cells_persist(before, before));
    }
    while from < candidates.len()
        invariant
            from <= candidates.len(),
            index < order.len() - 1,
            cell_id == order[index as int],
            cells.len() == grid.cell_count(),
            slots == grid.neighbor_slots(),
            forall|k: int| 0 <= k < order.len() ==> #[trigger] order[k] < cells.len(),
            cells.deep_view() == before,
            *completed_count == before_count,
            before == old(cells).deep_view(),
            before_count == *old(completed_count),
            snapshot.cells() == before,
            snapshot.count() == before_count,
            candidates@ == before[cell_id as int].possibilities,
            cells_persist(before, before),
            answers_are_functions(tile_set) ==> tried_from(
                tile_set,
                slots,
                before,
                before_count,
                order@,
                index as int,
                candidates@,
                from as int,
            ) == solved_from(tile_set, slots, before, before_count, order@, index as int),
        decreases candidates.len() - from,
    {
        let tile = candidates[from];
        if tile_is_compatible(grid, tile_set, cells, tile, cell_id) {
            set_tile_for_cell(cells, completed_count, cell_id, tile);
            let ghost set = cells.deep_view();
            let ghost set_count = *completed_count;
            if backtrack_solution(grid, tile_set, cells, completed_count, order, index + 1) {
                proof {
                    let after = cells.deep_view();
                    lemma_cells_persist_twice(before, set, after);
                    assert(order@.skip(index as int)[0] == cell_id);
                    assert forall|c: int|
                        0 <= c < before.len() && !order@.skip(index as int).contains(
                            c as usize,
                        ) implies #[trigger] after[c] == before[c] by {
                        lemma_skip_contains(order@, index as int, c as usize);
                        assert(after[c] == set[c]);
                    }
                    assert forall|k: int| index <= k < order.len() implies after[(
                    #[trigger] order@[k]) as int].state == CellState::Collapsed by {
                        if k == index {
                            let tail = order@.skip(index + 1);
                            if tail.contains(cell_id) {
                                let i = choose|i: int| 0 <= i < tail.len() && tail[i] == cell_id;
                                assert(order@[index + 1 + i] == cell_id);
                            } else {
                                assert(after[cell_id as int] == set[cell_id as int]);
                            }
                        }
                    }
                }
                return true;
            }
            let restored = snapshot.restore();
            *cells = restored.0;
            *completed_count = restored.1;
        }
        from += 1;
    }
    false
}

/// A cell that the rest of the order holds is at the front of the rest or
/// in what follows the front.
pub proof fn lemma_skip_contains(order: Seq<CellId>, index: int, cell: CellId)
    requires
        0 <= index < order.len(),
    ensures
        order.skip(index).contains(cell) <==> (order[index] == cell || order.skip(
            index + 1,
        ).contains(cell)),
{
    let rest = order.skip(index);
    let tail = order.skip(index + 1);
    if rest.contains(cell) {
        let i = choose|i: int| 0 <= i < rest.len() && rest[i] == cell;
        if i > 0 {
            assert(tail[i - 1] == cell);
        }
    }
    if order[index] == cell {
        assert(rest[0] == cell);
    }
    if tail.contains(cell) {
        let i = choose|i: int| 0 <= i < tail.len() && tail[i] == cell;
        assert(rest[i + 1] == cell);
    }
}

/// The outcome of the repair at depth `depth`, with the given layers.
///
/// At the greatest depth the repair gives up. Else the cells of the layers
/// are opened again and the search is run. Where the search finds no tiles
/// and a further depth is allowed, the next layer is added and the repair
/// goes one deeper; it gives up where there is no next layer.
pub open spec fn resolved_from<EdgeData, T: TileSetVirtual<EdgeData>, M: EntropyMeasure>(
    tile_set: &T,
    measure: &M,
    slots: Seq<Seq<Option<CellId>>>,
    cells: Seq<CellView>,
    count: usize,
    layers: Seq<Seq<CellId>>,
    depth: int,
    max_depth: int,
) -> Outcome
    decreases max_depth - depth,
{
    if depth >= max_depth {
        Outcome { solved: false, cells, count }
    } else {
        let opened = recovered_layers(
            tile_set,
            measure,
            slots,
            cells,
            layers,
            layers.len() as int,
        );
        let attempt = solved_from(tile_set, slots, opened, count, repair_order(layers), 0);
        if attempt.solved {
            attempt
        } else if depth < max_depth - 1 {
            let next = next_layer(slots, attempt.cells, layers);
            if next.len() > 0 {
                resolved_from(
                    tile_set,
                    measure,
                    slots,
                    attempt.cells,
                    attempt.count,
                    layers.push(next),
                    depth + 1,
                    max_depth,
                )
            } else {
                Outcome { solved: false, cells: attempt.cells, count: attempt.count }
            }
        } else {
            Outcome { solved: false, cells: attempt.cells, count: attempt.count }
        }
    }
}

/// What a repair that succeeded has left: every cell is collapsed, or is
/// as it was before and was in none of the layers that the repair began with.
pub open spec fn is_repaired(
    before: Seq<CellView>,
    after: Seq<CellView>,
    layers: Seq<Seq<CellId>>,
) -> bool {
    forall|c: int|
        0 <= c < before.len() ==> {
            ||| (#[trigger] after[c]).state == CellState::Collapsed
            ||| (after[c] == before[c] && !in_layers(layers, c as usize))
        }
}

/// The repair at one depth: opens the cells of the layers again and
/// searches tiles for them; where that fails, goes on with one layer more.
pub fn resolve_conflicts_recursive<EdgeData, T: TileSetVirtual<EdgeData>, M: EntropyMeasure>(
    grid: &GridSystem,
    tile_set: &T,
    measure: &M,
    cells: &mut Vec<CellWfcData>,
    completed_count: &mut usize,
    layers: Vec<Vec<CellId>>,
    depth: usize,
    max_depth: usize,
) -> (solved: bool)
    requires
        grid.wf(),
        old(cells).len() == grid.cell_count(),
        layers_in_range(layers.deep_view(), old(cells).len() as nat),
    ensures
        cells_persist(old(cells).deep_view(), final(cells).deep_view()),
        solved ==> is_repaired(
            old(cells).deep_view(),
            final(cells).deep_view(),
            layers.deep_view(),
        ),
        depth >= max_depth ==> !solved && final(cells).deep_view() == old(cells).deep_view()
            && *final(completed_count) == *old(completed_count),
        repeatable(tile_set, measure) ==> (Outcome {
            solved,
            cells: final(cells).deep_view(),
            count: *final(completed_count),
        }) == resolved_from(
            tile_set,
            measure,
            grid.neighbor_slots(),
            old(cells).deep_view(),
            *old(completed_count),
            layers.deep_view(),
            depth as int,
            max_depth as int,
        ),
    decreases max_depth - depth,
{
    let ghost before = cells.deep_view();
    let ghost model = layers.deep_view();
    let ghost slots = grid.neighbor_slots();
    if depth >= max_depth {
        proof {
            assert(cells_persist(before, before));
        }
        return false;
    }
    recover_layers(grid, tile_set, measure, cells, &layers);
    let ghost opened = cells.deep_view();
    let ghost opened_count = *completed_count;
    let order = order_for_repair(&layers);
    proof {
        lemma_layers_view(layers);
        assert forall|k: int| 0 <= k < order.len() implies #[trigger] order[k] < cells.len() by {
            assert(order@.contains(order[k]));
            lemma_repair_order_members(model, order[k]);
            let l = choose|l: int| 0 <= l < model.len() && (#[trigger] model[l]).contains(order[k]);
            let j = choose|j: int| 0 <= j < model[l].len() && model[l][j] == order[k];
            assert(model[l][j] < cells.len());
        }
        assert(order@.skip(0) =~= order@);
    }
    if backtrack_solution(grid, tile_set, cells, completed_count, &order, 0) {
        proof {
            let after = cells.deep_view();
            lemma_cells_persist_twice(before, opened, after);
            assert forall|c: int| 0 <= c < before.len() implies {
                ||| (#[trigger] after[c]).state == CellState::Collapsed
                ||| (after[c] == before[c] && !in_layers(model, c as usize))
            } by {
                lemma_repair_order_members(model, c as usize);
                if in_layers(model, c as usize) {
                    let k = choose|k: int| 0 <= k < order@.len() && order@[k] == c as usize;
                    assert(after[order@[k] as int].state == CellState::Collapsed);
                } else {
                    assert(after[c] == opened[c]);
                    assert(opened[c] == before[c]);
                }
            }
        }
        return true;
    }
    if depth < max_depth - 1 {
        let next = build_next_layer(grid, cells, &layers);
        if next.len() > 0 {
            let mut deeper = layers;
            deeper.push(next);
            proof {
                lemma_layers_view(deeper);
                assert(deeper.deep_view() =~= model.push(next@));
                assert forall|l: int, j: int|
                    0 <= l < deeper.deep_view().len() && 0 <= j < deeper.deep_view()[l].len() implies (
                #[trigger] deeper.deep_view()[l][j]) < cells.len() by {
                    if l < model.len() {
                        assert(deeper.deep_view()[l] == model[l]);
                        assert(model[l][j] < cells.len());
                    } else {
                        assert(deeper.deep_view()[l][j] == next@[j]);
                    }
                }
            }
            let solved = resolve_conflicts_recursive(
                grid,
                tile_set,
                measure,
                cells,
                completed_count,
                deeper,
                depth + 1,
                max_depth,
            );
            proof {
                let after = cells.deep_view();
                lemma_cells_persist_twice(before, opened, after);
                if solved {
                    assert forall|c: int| 0 <= c < before.len() implies {
                        ||| (#[trigger] after[c]).state == CellState::Collapsed
                        ||| (after[c] == before[c] && !in_layers(model, c as usize))
                    } by {
                        if after[c].state != CellState::Collapsed {
                            assert(after[c] == opened[c]);
                            if in_layers(model, c as usize) {
                                let l = choose|l: int|
                                    0 <= l < model.len() && (#[trigger] model[l]).contains(
                                        c as usize,
                                    );
                                assert(model.push(next@)[l] == model[l]);
                                assert(in_layers(model.push(next@), c as usize));
                            }
                            assert(opened[c] == before[c]);
                        }
                    }
                }
            }
            return solved;
        }
    }
    proof {
        lemma_cells_persist_twice(before, opened, cells.deep_view());
    }
    false
}

/// The cells in conflict, in the order of their handles.
pub open spec fn conflict_cells(cells: Seq<CellView>) -> Seq<CellId> {
    Seq::new(cells.len(), |i: int| i as usize).filter(
        |c: CellId| cells[c as int].state == CellState::Conflict,
    )
}

/// Lists the cells that are in conflict.
pub fn collect_conflict_cells(cells: &Vec<CellWfcData>) -> (found: Vec<CellId>)
    ensures
        found@ == conflict_cells(cells.deep_view()),
        forall|i: int| 0 <= i < found.len() ==> #[trigger] found[i] < cells.len(),
        forall|i: int|
            0 <= i < found.len() ==> cells[(#[trigger] found[i]) as int].state
                == CellState::Conflict,
        forall|c: int|
            0 <= c < cells.len() && cells[c].state == CellState::Conflict ==> found@.contains(
                c as usize,
            ),
{
    let mut found: Vec<CellId> = Vec::new();
    let ghost view = cells.deep_view();
    let ghost all = Seq::new(view.len(), |i: int| i as usize);
    let ghost in_conflict = |c: CellId| view[c as int].state == CellState::Conflict;
    let mut i: usize = 0;
    proof {
        assert(all.take(0) =~= Seq::<CellId>::empty());
        reveal_with_fuel(Seq::filter, 1);
    }
    while i < cells.len()
        invariant
            i <= cells.len(),
            view == cells.deep_view(),
            all == Seq::new(view.len(), |i: int| i as usize),
            in_conflict == |c: CellId| view[c as int].state == CellState::Conflict,
            found@ == all.take(i as int).filter(in_conflict),
            forall|k: int| 0 <= k < found.len() ==> #[trigger] found[k] < i,
            forall|k: int|
                0 <= k < found.len() ==> cells[(#[trigger] found[k]) as int].state
                    == CellState::Conflict,
            forall|c: int|
                0 <= c < i && cells[c].state == CellState::Conflict ==> found@.contains(c as usize),
        decreases cells.len() - i,
    {
        proof {
            assert(all.take(i + 1) =~= all.take(i as int).push(i));
            all.take(i as int).lemma_filter_push(i, in_conflict);
        }
        let ghost listed = found@;
        if cells[i].state == CellState::Conflict {
            found.push(i);
            proof {
                assert(found@[listed.len() as int] == i);
            }
        }
        proof {
            assert forall|c: int|
                0 <= c < i + 1 && cells[c].state == CellState::Conflict implies found@.contains(
                c as usize,
            ) by {
                if c < i {
                    let k = choose|k: int| 0 <= k < listed.len() && listed[k] == c as usize;
                    assert(found@[k] == c as usize);
                }
            }
        }
        i += 1;
    }
    proof {
        assert(all.take(i as int) =~= all);
    }
    found
}

/// Whether some cell is in conflict.
pub fn has_conflicts(cells: &Vec<CellWfcData>) -> (found: bool)
    ensures
        found == exists|c: int|
            0 <= c < cells.len() && (#[trigger] cells.deep_view()[c]).state == CellState::Conflict,
{
    let mut i: usize = 0;
    while i < cells.len()
        invariant
            i <= cells.len(),
            forall|c: int|
                0 <= c < i ==> (#[trigger] cells.deep_view()[c]).state != CellState::Conflict,
        decreases cells.len() - i,
    {
        if cells[i].state == CellState::Conflict {
            assert(cells.deep_view()[i as int].state == CellState::Conflict);
            return true;
        }
        i += 1;
    }
    false
}

/// The outcome of repairing the conflicts among the cells: nothing to do
/// where no cell is in conflict, else the repair in layers that begins
/// with the cells in conflict as the one layer.
pub open spec fn repaired<EdgeData, T: TileSetVirtual<EdgeData>, M: EntropyMeasure>(
    tile_set: &T,
    measure: &M,
    slots: Seq<Seq<Option<CellId>>>,
    cells: Seq<CellView>,
    count: usize,
    max_depth: usize,
) -> Outcome {
    if conflict_cells(cells).len() == 0 {
        Outcome { solved: true, cells, count }
    } else {
        resolved_from(
            tile_set,
            measure,
            slots,
            cells,
            count,
            seq![conflict_cells(cells)],
            0,
            max_depth as int,
        )
    }
}

/// Whether no cell is in conflict.
pub open spec fn free_of_conflicts(cells: Seq<CellView>) -> bool {
    forall|c: int| 0 <= c < cells.len() ==> (#[trigger] cells[c]).state != CellState::Conflict
}

/// Repairs the conflicts among the cells, beginning with the cells in
/// conflict as the one layer. A repair that succeeds leaves no cell in conflict.
pub fn layered_backtrack_resolution<EdgeData, T: TileSetVirtual<EdgeData>, M: EntropyMeasure>(
    grid: &GridSystem,
    tile_set: &T,
    measure: &M,
    cells: &mut Vec<CellWfcData>,
    completed_count: &mut usize,
    max_depth: usize,
) -> (solved: bool)
    requires
        grid.wf(),
        old(cells).len() == grid.cell_count(),
    ensures
        cells_persist(old(cells).deep_view(), final(cells).deep_view()),
        solved ==> free_of_conflicts(final(cells).deep_view()),
        free_of_conflicts(old(cells).deep_view()) ==> solved && final(cells).deep_view() == old(cells).deep_view() && *final(completed_count) == *old(completed_count),
        max_depth == 0 && !free_of_conflicts(old(cells).deep_view()) ==> !solved && final(cells).deep_view() == old(cells).deep_view() && *final(completed_count) == *old(completed_count),
        repeatable(tile_set, measure) ==> (Outcome {
            solved,
            cells: final(cells).deep_view(),
            count: *final(completed_count),
        }) == repaired(
            tile_set,
            measure,
            grid.neighbor_slots(),
            old(cells).deep_view(),
            *old(completed_count),
            max_depth,
        ),
{
    let ghost before = cells.deep_view();
    let conflicts = collect_conflict_cells(cells);
    if conflicts.len() == 0 {
        proof {
            assert(cells_persist(before, before));
            assert forall|c: int| 0 <= c < before.len() implies (#[trigger] before[c]).state
                != CellState::Conflict by {
                if before[c].state == CellState::Conflict {
                    assert(conflicts@.contains(c as usize));
                }
            }
        }
        return true;
    }
    let ghost first = conflicts@;
    proof {
        assert(before[conflicts[0] as int].state == CellState::Conflict);
        assert(!free_of_conflicts(before));
    }
    let mut layers: Vec<Vec<CellId>> = Vec::new();
    layers.push(conflicts);
    proof {
        lemma_layers_view(layers);
        assert(layers.deep_view() =~= seq![first]);
    }
    let solved = resolve_conflicts_recursive(
        grid,
        tile_set,
        measure,
        cells,
        completed_count,
        layers,
        0,
        max_depth,
    );
    proof {
        if solved {
            let after = cells.deep_view();
            assert forall|c: int| 0 <= c < after.len() implies (#[trigger] after[c]).state
                != CellState::Conflict by {
                if after[c].state == CellState::Conflict {
                    assert(after[c] == before[c]);
                    assert(first.contains(c as usize));
                    assert(seq![first][0].contains(c as usize));
                    assert(in_layers(seq![first], c as usize));
                }
            }
        }
    }
    solved
}

} // verus!

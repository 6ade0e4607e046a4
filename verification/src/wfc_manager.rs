//! The solver: per-cell state, the step loop, and the repair of conflicts.

use crate::collapse::{
    collapse, collapsed_count, collapsed_once, decide_cell, decided, is_decision,
    lemma_collapsed_count_bound, lemma_decision_effects, min_entropy_cell, never_grows,
    open_count, Progress,
};
use crate::entropy::{calculate_entropy, entropy_may_be, entropy_of, EntropyMeasure};
use crate::grid_system::GridSystem;
use crate::propagation::{copy_tiles, repeatable};
use crate::random::{draw_for_seed, engine_stream, rand_num_from_draw, rand_value, Engine};
use crate::repair::{
    cells_persist, conflict_cells, count_up, free_of_conflicts, has_conflicts, holds,
    layered_backtrack_resolution, repaired, Outcome,
};
use crate::tile_set::{ask_catalog, catalog, count_may_be, ids_may_be, TileSetVirtual};
use crate::wfc_util::{CellId, GridError, Tile, TileId};
use core::marker::PhantomData;
use vstd::prelude::*;
use vstd::std_specs::convert::FromSpecImpl;

verus! {

/// Where a cell stands in the run.
#[derive(Debug, Clone, Copy, PartialEq, Eq, Hash, Structural)]
pub enum CellState {
    /// Still open: the cell can be more than one tile, or has not been decided.
    Uncollapsed,
    /// Decided: one tile.
    Collapsed,
    /// No tile is left for the cell.
    Conflict,
}

/// The state that the solver keeps for one cell.
#[derive(Debug, Clone)]
pub struct CellWfcData {
    pub state: CellState,
    /// The entropy key of the cell: it orders as the entropy of `possibilities` does.
    pub entropy: u64,
    /// The seed of the cell; it never changes.
    pub rand_seed: u64,
    /// The number that picks the tile of the cell, derived once from the seed.
    pub rand_num: i32,
    /// The tiles that the cell can still be, in catalog order.
    pub possibilities: Vec<TileId>,
}

/// A cell as the contracts of the solver see it.
pub struct CellView {
    pub state: CellState,
    pub entropy: u64,
    pub rand_seed: u64,
    pub rand_num: i32,
    pub possibilities: Seq<TileId>,
}

impl View for CellWfcData {
    type V = CellView;

    open spec fn view(&self) -> CellView {
        CellView {
            state: self.state,
            entropy: self.entropy,
            rand_seed: self.rand_seed,
            rand_num: self.rand_num,
            possibilities: self.possibilities@,
        }
    }
}

impl DeepView for CellWfcData {
    type V = CellView;

    open spec fn deep_view(&self) -> CellView {
        self@
    }
}

impl CellView {
    /// What holds of every cell between the operations of the solver: a
    /// cell is in conflict exactly when no tile is left for it, a collapsed
    /// cell has one tile and entropy 0, and the number that picks the tile
    /// is the one that belongs to the seed.
    pub open spec fn wf(self) -> bool {
        &&& self.state == CellState::Conflict <==> self.possibilities.len() == 0
        &&& self.state == CellState::Collapsed ==> self.possibilities.len() == 1 && self.entropy
            == 0
        &&& self.rand_num == rand_value(self.rand_seed)
    }

    /// The cell after it has been decided for `tile`.
    pub open spec fn collapsed_to(self, tile: TileId) -> CellView {
        CellView {
            state: CellState::Collapsed,
            entropy: 0,
            possibilities: seq![tile],
            ..self
        }
    }

    /// The cell after its possibilities have been set anew: open while a
    /// tile is left, in conflict when none is.
    pub open spec fn reopened(self, possibilities: Seq<TileId>, entropy: u64) -> CellView {
        CellView {
            state: if possibilities.len() == 0 {
                CellState::Conflict
            } else {
                CellState::Uncollapsed
            },
            entropy,
            possibilities,
            ..self
        }
    }

    /// The cell after its possibilities have been narrowed by propagation.
    pub open spec fn narrowed(self, possibilities: Seq<TileId>, entropy: u64) -> CellView {
        CellView {
            state: if possibilities.len() == 0 {
                CellState::Conflict
            } else {
                self.state
            },
            entropy,
            possibilities,
            ..self
        }
    }
}

impl CellWfcData {
    /// The state of a cell at the start: open, with the given seed and
    /// possibilities. The entropy is left at 0 until it is computed.
    pub fn new(rand_seed: u64, possibilities: Vec<TileId>) -> (cell: Self)
        ensures
            cell.state == CellState::Uncollapsed,
            cell.entropy == 0,
            cell.rand_seed == rand_seed,
            cell.rand_num == rand_value(rand_seed),
            cell.rand_num >= 0,
            cell.possibilities == possibilities,
    {
        let rand_num = rand_num_from_draw(draw_for_seed(rand_seed));
        CellWfcData {
            state: CellState::Uncollapsed,
            entropy: 0,
            rand_seed,
            rand_num,
            possibilities,
        }
    }

    /// A copy of the cell.
    pub fn duplicate(&self) -> (copy: Self)
        ensures
            copy@ == self@,
    {
        let mut possibilities: Vec<TileId> = Vec::new();
        let mut i: usize = 0;
        while i < self.possibilities.len()
            invariant
                i <= self.possibilities.len(),
                possibilities@ == self.possibilities@.take(i as int),
            decreases self.possibilities.len() - i,
        {
            possibilities.push(self.possibilities[i]);
            proof {
                assert(self.possibilities@.take(i + 1) =~= self.possibilities@.take(i as int).push(
                    self.possibilities@[i as int],
                ));
            }
            i += 1;
        }
        proof {
            assert(self.possibilities@.take(i as int) =~= self.possibilities@);
        }
        CellWfcData {
            state: self.state,
            entropy: self.entropy,
            rand_seed: self.rand_seed,
            rand_num: self.rand_num,
            possibilities,
        }
    }
}

/// A copy of the list of cells.
pub fn duplicate_cells(cells: &Vec<CellWfcData>) -> (copy: Vec<CellWfcData>)
    ensures
        copy.deep_view() == cells.deep_view(),
{
    let mut copy: Vec<CellWfcData> = Vec::new();
    let mut i: usize = 0;
    while i < cells.len()
        invariant
            i <= cells.len(),
            copy.len() == i,
            forall|k: int| 0 <= k < i ==> (#[trigger] copy[k])@ == cells[k]@,
        decreases cells.len() - i,
    {
        copy.push(cells[i].duplicate());
        i += 1;
    }
    proof {
        assert(copy.deep_view() =~= cells.deep_view());
    }
    copy
}

/// The state of all cells and the count of collapses at one moment, kept
/// to return to it.
#[derive(Debug, Clone)]
pub struct SystemSnapshot {
    data: Vec<CellWfcData>,
    completed_count: usize,
}

impl SystemSnapshot {
    /// The cells of the snapshot.
    pub closed spec fn cells(&self) -> Seq<CellView> {
        self.data.deep_view()
    }

    /// The count of collapses of the snapshot.
    pub closed spec fn count(&self) -> usize {
        self.completed_count
    }

    /// A snapshot of the given cells and count.
    pub fn take(cells: &Vec<CellWfcData>, completed_count: usize) -> (snapshot: Self)
        ensures
            snapshot.cells() == cells.deep_view(),
            snapshot.count() == completed_count,
    {
        SystemSnapshot { data: duplicate_cells(cells), completed_count }
    }

    /// The cells and the count that the snapshot holds, as fresh copies.
    pub fn restore(&self) -> (state: (Vec<CellWfcData>, usize))
        ensures
            state.0.deep_view() == self.cells(),
            state.1 == self.count(),
    {
        (duplicate_cells(&self.data), self.completed_count)
    }
}

/// The settings of the solver.
#[derive(Debug, Clone)]
pub struct WfcConfig {
    /// How many layers the repair of conflicts may reach.
    pub max_recursion_depth: usize,
    /// The seed of the solver's generator; drawn afresh where none is given.
    pub random_seed: Option<u64>,
}

impl Default for WfcConfig {
    fn default() -> (config: Self)
        ensures
            config.max_recursion_depth == 3,
            config.random_seed is None,
    {
        WfcConfig { max_recursion_depth: 3, random_seed: None }
    }
}

/// What can go wrong in the solver.
#[derive(Debug, Clone, PartialEq)]
pub enum WfcError {
    /// An error of the grid, handed on.
    Grid(GridError),
    /// No open cell is left to collapse.
    NoUncollapsedCells,
    /// The solver keeps no state for this cell.
    CellNotFound(CellId),
    TileNotFound,
    /// The cell is not open any more.
    CellAlreadyCollapsed,
    /// The tile is not among the possibilities of the cell.
    InvalidTileChoice,
    /// The repair of conflicts found no way out.
    UnresolvableConflicts,
    /// The state of the cell is not what the question presumes.
    InconsistentState,
    InitializationFailed(String),
}

/// What one step of the solver did.
#[derive(Debug, Clone, Copy, PartialEq, Eq, Structural)]
pub enum StepResult {
    /// One cell was collapsed and the effect propagated.
    Collapsed,
    /// All cells were collapsed, some were in conflict, and the repair succeeded.
    ConflictsResolved,
    /// All cells were collapsed, some were in conflict, and the repair failed.
    ConflictResolutionFailed,
    /// All cells are collapsed and none is in conflict.
    Complete,
}

impl From<GridError> for WfcError {
    fn from(error: GridError) -> (wrapped: WfcError) {
        WfcError::Grid(error)
    }
}

impl FromSpecImpl<GridError> for WfcError {
    open spec fn obeys_from_spec() -> bool {
        true
    }

    open spec fn from_spec(error: GridError) -> WfcError {
        WfcError::Grid(error)
    }
}

impl WfcError {
    /// The text that describes the kind of this error.
    pub fn message(&self) -> (text: &'static str)
        ensures
            text@ == match *self {
                WfcError::Grid(_) => "Grid error"@,
                WfcError::NoUncollapsedCells => "No uncollapsed cells available"@,
                WfcError::CellNotFound(_) => "Cell not found in WFC data"@,
                WfcError::TileNotFound => "Tile not found in tile set"@,
                WfcError::CellAlreadyCollapsed => "Cell is already collapsed"@,
                WfcError::InvalidTileChoice => "Invalid tile choice for cell"@,
                WfcError::UnresolvableConflicts => "Conflicts cannot be resolved"@,
                WfcError::InconsistentState => "WFC system state is inconsistent"@,
                WfcError::InitializationFailed(_) => "Initialization failed"@,
            },
    {
        match self {
            WfcError::Grid(_) => "Grid error",
            WfcError::NoUncollapsedCells => "No uncollapsed cells available",
            WfcError::CellNotFound(_) => "Cell not found in WFC data",
            WfcError::TileNotFound => "Tile not found in tile set",
            WfcError::CellAlreadyCollapsed => "Cell is already collapsed",
            WfcError::InvalidTileChoice => "Invalid tile choice for cell",
            WfcError::UnresolvableConflicts => "Conflicts cannot be resolved",
            WfcError::InconsistentState => "WFC system state is inconsistent",
            WfcError::InitializationFailed(_) => "Initialization failed",
        }
    }
}

/// What initialises a solver: it fills in the state of the cells, and may
/// decide cells ahead of the run.
pub trait WfcInitializer<EdgeData, T: TileSetVirtual<EdgeData>, M: EntropyMeasure> {
    /// Initialises the solver.
    fn initialize(&mut self, manager: &mut WfcManager<EdgeData, T, M>) -> (done: Result<
        (),
        WfcError,
    >)
        requires
            old(manager).wf(),
        ensures
            final(manager).wf(),
    ;
}

/// The initialiser that does no more than [`WfcManager::initialize`] does.
pub struct DefaultInitializer;

impl<EdgeData, T: TileSetVirtual<EdgeData>, M: EntropyMeasure> WfcInitializer<
    EdgeData,
    T,
    M,
> for DefaultInitializer {
    fn initialize(&mut self, manager: &mut WfcManager<EdgeData, T, M>) -> (done: Result<
        (),
        WfcError,
    >)
        ensures
            exists|ts: &mut T, built: Result<(), GridError>|
                *ts == *old(manager).tile_set() && *final(ts) == *final(manager).tile_set()
                    && #[trigger] call_ensures(T::build_tile_set, (ts,), built) && final(manager).is_initialization_of(old(manager), built, done),
    {
        manager.initialize()
    }
}

/// The solver. It owns the grid, the tile set, the entropy measure, the
/// state of every cell, and a generator that is seeded once.
pub struct WfcManager<EdgeData, T: TileSetVirtual<EdgeData>, M: EntropyMeasure> {
    grid: GridSystem,
    tile_set: T,
    measure: M,
    wfc_data: Vec<CellWfcData>,
    completed_count: usize,
    engine: Engine,
    config: WfcConfig,
    marker: PhantomData<EdgeData>,
}

/// The cells as initialisation leaves them: all open, each with the seed
/// drawn for it and every tile of the catalog as its possibilities.
pub open spec fn initial_cells<EdgeData, T: TileSetVirtual<EdgeData>, M: EntropyMeasure>(
    tile_set: &T,
    measure: &M,
    seed: u64,
    position: nat,
    count: nat,
) -> Seq<CellView> {
    Seq::new(
        count,
        |i: int|
            CellView {
                state: CellState::Uncollapsed,
                entropy: entropy_of(tile_set, measure, catalog(tile_set)),
                rand_seed: engine_stream(seed, (position + i) as nat),
                rand_num: rand_value(engine_stream(seed, (position + i) as nat)),
                possibilities: catalog(tile_set),
            },
    )
}

impl<EdgeData, T: TileSetVirtual<EdgeData>, M: EntropyMeasure> WfcManager<EdgeData, T, M> {
    /// The grid of the solver.
    pub closed spec fn grid(&self) -> GridSystem {
        self.grid
    }

    /// The tile set of the solver.
    pub closed spec fn tile_set(&self) -> &T {
        &self.tile_set
    }

    /// The entropy measure of the solver.
    pub closed spec fn measure(&self) -> &M {
        &self.measure
    }

    /// The state of the cells, by cell handle. Empty until the solver is initialised.
    pub closed spec fn cells(&self) -> Seq<CellView> {
        self.wfc_data.deep_view()
    }

    /// The count of collapses.
    pub closed spec fn count(&self) -> usize {
        self.completed_count
    }

    /// The settings of the solver.
    pub closed spec fn settings(&self) -> WfcConfig {
        self.config
    }

    /// The generator of the solver.
    pub closed spec fn engine(&self) -> Engine {
        self.engine
    }

    /// The solver is well formed: its grid is, it keeps state for every
    /// cell of the grid or (before it is initialised) for none, and every
    /// cell state is well formed.
    pub open spec fn wf(&self) -> bool {
        &&& self.grid().wf()
        &&& self.cells().len() == 0 || self.cells().len() == self.grid().cell_count()
        &&& forall|i: int| 0 <= i < self.cells().len() ==> (#[trigger] self.cells()[i]).wf()
    }

    /// The solver keeps state for every cell of the grid.
    pub open spec fn initialized(&self) -> bool {
        self.cells().len() == self.grid().cell_count()
    }

    /// The count of collapses is the number of collapsed cells.
    pub open spec fn count_consistent(&self) -> bool {
        self.count() == collapsed_count(self.cells())
    }

    /// The solver leaves the grid, the capabilities and the settings as they are.
    pub open spec fn same_setup(&self, other: &Self) -> bool {
        &&& self.grid() == other.grid()
        &&& self.tile_set() == other.tile_set()
        &&& self.measure() == other.measure()
        &&& self.settings() == other.settings()
        &&& self.engine() == other.engine()
    }

    /// The cells and the count of collapses.
    pub open spec fn progress(&self) -> Progress {
        Progress { cells: self.cells(), count: self.count() }
    }

    /// A solver for the grid with the default settings: a repair depth of
    /// 3 and a seed drawn afresh. The solver is not initialised yet.
    pub fn new(grid: GridSystem, tile_set: T, measure: M) -> (made: Result<Self, WfcError>)
        requires
            grid.wf(),
        ensures
            made matches Ok(manager) && {
                &&& manager.wf()
                &&& manager.grid() == grid
                &&& *manager.tile_set() == tile_set
                &&& *manager.measure() == measure
                &&& manager.cells().len() == 0
                &&& manager.count() == 0
                &&& manager.settings().max_recursion_depth == 3
                &&& manager.settings().random_seed is None
                &&& manager.engine().drawn == 0
            },
    {
        Self::with_config(grid, tile_set, measure, WfcConfig::default())
    }

    /// A solver for the grid with the given settings. Where the settings
    /// hold a seed, the generator of the solver is made from it. The
    /// solver is not initialised yet.
    pub fn with_config(grid: GridSystem, tile_set: T, measure: M, config: WfcConfig) -> (made: Result<
        Self,
        WfcError,
    >)
        requires
            grid.wf(),
        ensures
            made matches Ok(manager) && {
                &&& manager.wf()
                &&& manager.grid() == grid
                &&& *manager.tile_set() == tile_set
                &&& *manager.measure() == measure
                &&& manager.cells().len() == 0
                &&& manager.count() == 0
                &&& manager.settings() == config
                &&& manager.engine().drawn == 0
                &&& config.random_seed matches Some(seed) ==> manager.engine().seed == seed
            },
    {
        let engine = match config.random_seed {
            Some(seed) => Engine::from_seed(seed),
            None => Engine::fresh(),
        };
        Ok(
            WfcManager {
                grid,
                tile_set,
                measure,
                wfc_data: Vec::new(),
                completed_count: 0,
                engine,
                config,
                marker: PhantomData,
            },
        )
    }

    /// Initialises the solver with the given initialiser: the solver and
    /// the initialiser are left as the initialiser leaves them, and what
    /// it returns comes back.
    pub fn initialize_with<I: WfcInitializer<EdgeData, T, M>>(&mut self, initializer: &mut I) -> (done:
        Result<(), WfcError>)
        requires
            old(self).wf(),
        ensures
            final(self).wf(),
            exists|i: &mut I, m: &mut WfcManager<EdgeData, T, M>|
                *i == *old(initializer) && *final(i) == *final(initializer) && *m == *old(self)
                    && *final(m) == *final(self) && #[trigger] call_ensures(
                    I::initialize,
                    (i, m),
                    done,
                ),
    {
        let done = initializer.initialize(self);
        proof {
            assert(exists|i: &mut I, m: &mut WfcManager<EdgeData, T, M>|
                *i == *old(initializer) && *final(i) == *initializer && *m == *old(self)
                    && *final(m) == *self && #[trigger] call_ensures(I::initialize, (i, m), done));
        }
        done
    }

    /// Whether every cell is counted as collapsed.
    pub fn is_complete(&self) -> (complete: bool)
        ensures
            complete == (self.count() == self.grid().cell_count()),
    {
        self.completed_count == self.grid.get_cells_count()
    }

    /// The count of collapses.
    pub fn completed_count(&self) -> (count: usize)
        ensures
            count == self.count(),
    {
        self.completed_count
    }

    /// The state of a cell; `CellNotFound` for a cell without state.
    pub fn get_cell_state(&self, cell_id: CellId) -> (state: Result<CellState, WfcError>)
        ensures
            cell_id < self.cells().len() ==> state == Ok::<CellState, WfcError>(
                self.cells()[cell_id as int].state,
            ),
            cell_id >= self.cells().len() ==> state == Err::<CellState, WfcError>(
                WfcError::CellNotFound(cell_id),
            ),
    {
        if cell_id < self.wfc_data.len() {
            Ok(self.wfc_data[cell_id].state)
        } else {
            Err(WfcError::CellNotFound(cell_id))
        }
    }

    /// The tile of a collapsed cell: `CellNotFound` for a cell without
    /// state, `InconsistentState` for a cell that is not collapsed to one tile.
    pub fn get_collapsed_cell_tile(&self, cell_id: CellId) -> (tile: Result<TileId, WfcError>)
        ensures
            tile == (if cell_id >= self.cells().len() {
                Err::<TileId, WfcError>(WfcError::CellNotFound(cell_id))
            } else if self.cells()[cell_id as int].state == CellState::Collapsed
                && self.cells()[cell_id as int].possibilities.len() == 1 {
                Ok::<TileId, WfcError>(self.cells()[cell_id as int].possibilities[0])
            } else {
                Err::<TileId, WfcError>(WfcError::InconsistentState)
            }),
    {
        if cell_id >= self.wfc_data.len() {
            return Err(WfcError::CellNotFound(cell_id));
        }
        let cell = &self.wfc_data[cell_id];
        if cell.state == CellState::Collapsed && cell.possibilities.len() == 1 {
            Ok(cell.possibilities[0])
        } else {
            Err(WfcError::InconsistentState)
        }
    }

    /// The state that the solver keeps for a cell, as a copy; none for a cell without state.
    pub fn get_cell_data(&self, cell_id: CellId) -> (data: Option<CellWfcData>)
        ensures
            cell_id < self.cells().len() ==> data is Some && data->0@
                == self.cells()[cell_id as int],
            cell_id >= self.cells().len() ==> data is None,
    {
        if cell_id < self.wfc_data.len() {
            Some(self.wfc_data[cell_id].duplicate())
        } else {
            None
        }
    }

    /// The grid of the solver.
    pub fn get_grid(&self) -> (grid: &GridSystem)
        ensures
            *grid == self.grid(),
    {
        &self.grid
    }

    /// The ids from 0 up to the number of tiles that the tile set reports.
    pub fn get_all_tile_ids(&self) -> (ids: Vec<TileId>)
        ensures
            count_may_be(self.tile_set(), ids.len()),
            forall|i: int| 0 <= i < ids.len() ==> #[trigger] ids[i] == i,
    {
        let count = self.tile_set.get_tile_count();
        let mut ids: Vec<TileId> = Vec::new();
        let mut i: usize = 0;
        while i < count
            invariant
                i <= count,
                ids.len() == i,
                forall|k: int| 0 <= k < i ==> #[trigger] ids[k] == k,
            decreases count - i,
        {
            ids.push(i);
            i += 1;
        }
        ids
    }

    /// The tile with the given id: what the tile set gives for an id below
    /// the number of tiles that it reports, and none for another.
    pub fn get_tile(&self, tile_id: TileId) -> (tile: Option<&Tile<EdgeData>>)
        ensures
            exists|count: usize| #[trigger]
                count_may_be(self.tile_set(), count) && if tile_id < count {
                    call_ensures(T::get_tile, (self.tile_set(), tile_id), tile)
                } else {
                    tile is None
                },
    {
        let count = self.tile_set.get_tile_count();
        assert(count_may_be(self.tile_set(), count));
        if tile_id < count {
            self.tile_set.get_tile(tile_id)
        } else {
            None
        }
    }

    /// A snapshot of the cells and the count of collapses.
    pub fn create_snapshot(&self) -> (snapshot: SystemSnapshot)
        ensures
            snapshot.cells() == self.cells(),
            snapshot.count() == self.count(),
    {
        SystemSnapshot::take(&self.wfc_data, self.completed_count)
    }

    /// Puts the cells and the count of collapses back to what a snapshot
    /// holds, whatever they have become since it was taken.
    pub fn restore_snapshot(&mut self, snapshot: &SystemSnapshot)
        ensures
            final(self).cells() == snapshot.cells(),
            final(self).count() == snapshot.count(),
            final(self).same_setup(old(self)),
    {
        let state = snapshot.restore();
        self.wfc_data = state.0;
        self.completed_count = state.1;
    }
}

impl<EdgeData, T: TileSetVirtual<EdgeData>, M: EntropyMeasure> WfcManager<EdgeData, T, M> {
    /// What holds of the cells after an initialisation that succeeded,
    /// whatever the measure answered: there is one for every cell of the
    /// grid, all are open, each has the seed that the generator gave for
    /// it, and all have the tiles `ids` as their possibilities.
    pub open spec fn is_populated(&self, ids: Seq<TileId>, seed: u64, position: nat) -> bool {
        &&& self.initialized()
        &&& forall|i: int|
            0 <= i < self.cells().len() ==> {
                let cell = #[trigger] self.cells()[i];
                &&& cell.state == CellState::Uncollapsed
                &&& cell.rand_seed == engine_stream(seed, (position + i) as nat)
                &&& cell.possibilities == ids
                &&& entropy_may_be(self.tile_set(), self.measure(), cell.possibilities, cell.entropy)
            }
    }

    /// What an initialisation does once the tile set has built its
    /// catalog and has given `ids` as the tiles of the catalog. It fails
    /// with `InitializationFailed`, and leaves cells and generator as they
    /// were, where the catalog is empty, and where the generator cannot
    /// count the draws for all cells. Else it succeeds, the cells are
    /// populated with `ids`, and the generator has given a draw for each.
    pub open spec fn is_filling_of(
        &self,
        before: &Self,
        ids: Seq<TileId>,
        done: Result<(), WfcError>,
    ) -> bool {
        if ids.len() == 0 || before.engine().drawn + before.grid().cell_count() > usize::MAX {
            &&& done matches Err(WfcError::InitializationFailed(_))
            &&& self.cells() == before.cells()
            &&& self.engine() == before.engine()
        } else {
            &&& done == Ok::<(), WfcError>(())
            &&& self.is_populated(ids, before.engine().seed, before.engine().drawn as nat)
            &&& self.engine().drawn == before.engine().drawn + before.grid().cell_count()
        }
    }

    /// What an initialisation does, given the solver before it, what the
    /// tile set returned when it built its catalog, and the result.
    ///
    /// The grid, the measure, the settings and the count of collapses
    /// stay, and the generator keeps its seed. Where the tile set failed,
    /// its error comes back as a grid error, with cells and generator as
    /// they were. Where it succeeded, the catalog is asked for its tiles
    /// and the cells are filled (see [`Self::is_filling_of`]). With
    /// capabilities that answer as functions do, the cells after a success
    /// are the [`initial_cells`].
    pub open spec fn is_initialization_of(
        &self,
        before: &Self,
        built: Result<(), GridError>,
        done: Result<(), WfcError>,
    ) -> bool {
        &&& self.grid() == before.grid()
        &&& self.measure() == before.measure()
        &&& self.settings() == before.settings()
        &&& self.count() == before.count()
        &&& self.engine().seed == before.engine().seed
        &&& match built {
            Err(error) => {
                &&& done == Err::<(), WfcError>(WfcError::Grid(error))
                &&& self.cells() == before.cells()
                &&& self.engine() == before.engine()
            },
            Ok(()) => exists|ids: Seq<TileId>|
                ids_may_be(self.tile_set(), ids) && #[trigger] self.is_filling_of(before, ids, done),
        }
        &&& repeatable(self.tile_set(), self.measure()) && done is Ok ==> self.cells()
            == initial_cells(
            self.tile_set(),
            self.measure(),
            before.engine().seed,
            before.engine().drawn as nat,
            before.grid().cell_count(),
        )
    }

    /// Initialises the solver: the tile set builds its catalog, and every
    /// cell gets a seed from the generator of the solver, the number that
    /// belongs to the seed, all tiles of the catalog as its possibilities,
    /// and their entropy.
    ///
    /// The build runs on the tile set of the solver and leaves it as the
    /// tile set of the solver. Where it fails, its error comes back as a
    /// grid error. Where it succeeds, the initialisation fails with
    /// `InitializationFailed` exactly where the catalog is empty or the
    /// generator cannot count the draws, and succeeds else. After a
    /// failure the cells are as they were.
    pub fn initialize(&mut self) -> (done: Result<(), WfcError>)
        requires
            old(self).wf(),
        ensures
            final(self).wf(),
            exists|ts: &mut T, built: Result<(), GridError>|
                *ts == *old(self).tile_set() && *final(ts) == *final(self).tile_set()
                    && #[trigger] call_ensures(T::build_tile_set, (ts,), built) && final(self).is_initialization_of(old(self), built, done),
    {
        let built = self.tile_set.build_tile_set();
        let ghost after_build = self.tile_set;
        proof {
            assert(exists|ts: &mut T|
                *ts == *old(self).tile_set() && *final(ts) == after_build
                    && #[trigger] call_ensures(T::build_tile_set, (ts,), built));
        }
        match built {
            Ok(()) => {},
            Err(e) => {
                proof {
                    assert(self.is_initialization_of(old(self), built, Err(WfcError::Grid(e))));
                }
                return Err(WfcError::Grid(e));
            },
        }
        let ids = ask_catalog(&self.tile_set);
        if ids.len() == 0 {
            let done = Err(WfcError::InitializationFailed("the tile set holds no tile".to_owned()));
            proof {
                assert(self.is_filling_of(old(self), ids@, done));
                assert(self.is_initialization_of(old(self), built, done));
            }
            return done;
        }
        let count = self.grid.get_cells_count();
        let ghost seed = self.engine.seed;
        let ghost position = self.engine.drawn as nat;
        let seeds = match self.engine.draw(count) {
            Some(seeds) => seeds,
            None => {
                let done = Err(
                    WfcError::InitializationFailed("the generator is exhausted".to_owned()),
                );
                proof {
                    assert(self.is_filling_of(old(self), ids@, done));
                    assert(self.is_initialization_of(old(self), built, done));
                }
                return done;
            },
        };
        let mut data: Vec<CellWfcData> = Vec::new();
        let mut i: usize = 0;
        while i < count
            invariant
                i <= count,
                data.len() == i,
                ids.len() > 0,
                ids_may_be(&self.tile_set, ids@),
                seeds@ == Seq::new(
                    count as nat,
                    |k: int| engine_stream(seed, (position + k) as nat),
                ),
                forall|k: int|
                    0 <= k < i ==> {
                        let cell = #[trigger] data.deep_view()[k];
                        &&& cell.wf()
                        &&& cell.state == CellState::Uncollapsed
                        &&& cell.rand_seed == engine_stream(seed, (position + k) as nat)
                        &&& cell.possibilities == ids@
                        &&& entropy_may_be(
                            &self.tile_set,
                            &self.measure,
                            cell.possibilities,
                            cell.entropy,
                        )
                    },
                repeatable(&self.tile_set, &self.measure) ==> forall|k: int|
                    0 <= k < i ==> (#[trigger] data.deep_view()[k]).entropy == entropy_of(
                        &self.tile_set,
                        &self.measure,
                        ids@,
                    ),
            decreases count - i,
        {
            let rand_seed = seeds[i];
            let possibilities = copy_tiles(&ids);
            let entropy = calculate_entropy(&self.tile_set, &self.measure, &possibilities);
            let fresh = CellWfcData::new(rand_seed, possibilities);
            let cell = CellWfcData {
                state: fresh.state,
                entropy,
                rand_seed: fresh.rand_seed,
                rand_num: fresh.rand_num,
                possibilities: fresh.possibilities,
            };
            let ghost filled = data.deep_view();
            data.push(cell);
            proof {
                assert forall|k: int| 0 <= k < i implies #[trigger] data.deep_view()[k]
                    == filled[k] by {}
            }
            i += 1;
        }
        self.wfc_data = data;
        proof {
            if repeatable(&self.tile_set, &self.measure) {
                assert(self.wfc_data.deep_view() =~= initial_cells(
                    &self.tile_set,
                    &self.measure,
                    seed,
                    position,
                    count as nat,
                ));
            }
            assert(self.is_filling_of(old(self), ids@, Ok(())));
            assert(self.is_initialization_of(old(self), built, Ok(())));
        }
        Ok(())
    }

    /// What a step that collapsed a cell has done, whatever the
    /// capabilities answered: the open cell of least entropy is collapsed
    /// to one of its possibilities, no cell has gained a tile, no other
    /// cell that was collapsed or in conflict has changed, and the count
    /// of collapses has gone up.
    pub open spec fn is_collapse_of(&self, before: &Self) -> bool {
        &&& min_entropy_cell(before.cells()) matches Some(cell_id)
        &&& exists|tile: TileId|
            before.cells()[cell_id as int].possibilities.contains(tile) && #[trigger] is_decision(
                before.cells(),
                self.cells(),
                cell_id,
                tile,
            )
        &&& self.count() == count_up(before.count())
    }

    /// Executes one step.
    ///
    /// While not every cell is counted as collapsed, the step collapses
    /// the open cell of least entropy and propagates (`Collapsed`); it fails
    /// with `NoUncollapsedCells` where no cell is open. When every cell is
    /// counted, the step repairs the conflicts where there are any
    /// (`ConflictsResolved` or `ConflictResolutionFailed`), and reports
    /// `Complete` where there are none.
    pub fn run_step(&mut self) -> (done: Result<StepResult, WfcError>)
        requires
            old(self).wf(),
        ensures
            final(self).wf(),
            final(self).same_setup(old(self)),
            cells_persist(old(self).cells(), final(self).cells()),
            if old(self).count() != old(self).grid().cell_count() {
                match min_entropy_cell(old(self).cells()) {
                    Some(_) => done == Ok::<StepResult, WfcError>(StepResult::Collapsed) && final(self).is_collapse_of(old(self)),
                    None => done == Err::<StepResult, WfcError>(WfcError::NoUncollapsedCells)
                        && final(self).progress() == old(self).progress(),
                }
            } else if free_of_conflicts(old(self).cells()) {
                done == Ok::<StepResult, WfcError>(StepResult::Complete) && final(self).progress()
                    == old(self).progress()
            } else {
                ||| done == Ok::<StepResult, WfcError>(StepResult::ConflictsResolved)
                    && free_of_conflicts(final(self).cells())
                ||| done == Ok::<StepResult, WfcError>(StepResult::ConflictResolutionFailed)
            },
            done == Ok::<StepResult, WfcError>(StepResult::Collapsed) ==> never_grows(
                old(self).cells(),
                final(self).cells(),
            ),
            old(self).count_consistent() ==> final(self).count_consistent() && done != Ok::<
                StepResult,
                WfcError,
            >(StepResult::ConflictsResolved) && done != Ok::<StepResult, WfcError>(
                StepResult::ConflictResolutionFailed,
            ),
            repeatable(old(self).tile_set(), old(self).measure()) ==> (done, final(self).progress()) == old(self).stepped(),
    {
        let ghost before = self.wfc_data.deep_view();
        let ghost before_count = self.completed_count;
        proof {
            assert(cells_persist(before, before));
            lemma_collapsed_count_bound(before);
            lemma_conflicts_listed(before);
        }
        if self.is_complete() {
            if has_conflicts(&self.wfc_data) {
                proof {
                    assert(!free_of_conflicts(before));
                    if self.count_consistent() {
                        let c = choose|c: int|
                            0 <= c < before.len() && (#[trigger] before[c]).state
                                == CellState::Conflict;
                        assert(before[c].state == CellState::Collapsed);
                    }
                }
                let solved = layered_backtrack_resolution(
                    &self.grid,
                    &self.tile_set,
                    &self.measure,
                    &mut self.wfc_data,
                    &mut self.completed_count,
                    self.config.max_recursion_depth,
                );
                proof {
                    lemma_conflicts_listed(before);
                }
                if solved {
                    Ok(StepResult::ConflictsResolved)
                } else {
                    Ok(StepResult::ConflictResolutionFailed)
                }
            } else {
                proof {
                    assert(free_of_conflicts(before));
                }
                Ok(StepResult::Complete)
            }
        } else {
            if self.wfc_data.len() != self.grid.get_cells_count() {
                proof {
                    assert(before.len() == 0);
                }
                return Err(WfcError::NoUncollapsedCells);
            }
            match collapse(
                &self.grid,
                &self.tile_set,
                &self.measure,
                &mut self.wfc_data,
                &mut self.completed_count,
            ) {
                Ok(()) => {
                    proof {
                        let after = self.wfc_data.deep_view();
                        let cell_id = min_entropy_cell(before)->0;
                        crate::collapse::lemma_min_entropy_cell(before, before.len() as int);
                        let tile = choose|tile: TileId|
                            before[cell_id as int].possibilities.contains(tile)
                                && #[trigger] is_decision(before, after, cell_id, tile);
                        lemma_decision_effects(before, after, cell_id, tile);
                    }
                    Ok(StepResult::Collapsed)
                },
                Err(e) => Err(e),
            }
        }
    }

    /// What a step gives and leaves, for capabilities that answer as functions do.
    pub open spec fn stepped(&self) -> (Result<StepResult, WfcError>, Progress) {
        if self.count() != self.grid().cell_count() {
            match collapsed_once(
                self.tile_set(),
                self.measure(),
                self.grid().neighbor_slots(),
                self.progress(),
            ) {
                Some(progress) => (Ok(StepResult::Collapsed), progress),
                None => (Err(WfcError::NoUncollapsedCells), self.progress()),
            }
        } else if conflict_cells(self.cells()).len() == 0 {
            (Ok(StepResult::Complete), self.progress())
        } else {
            let outcome = repaired(
                self.tile_set(),
                self.measure(),
                self.grid().neighbor_slots(),
                self.cells(),
                self.count(),
                self.settings().max_recursion_depth,
            );
            (
                Ok(
                    if outcome.solved {
                        StepResult::ConflictsResolved
                    } else {
                        StepResult::ConflictResolutionFailed
                    },
                ),
                Progress { cells: outcome.cells, count: outcome.count },
            )
        }
    }

    /// Forces the collapse of a cell to a tile and propagates the effect.
    ///
    /// Refused, with nothing changed: a cell without state
    /// (`CellNotFound`), a cell that is not open (`CellAlreadyCollapsed`),
    /// and a tile that is not among the possibilities of the cell
    /// (`InvalidTileChoice`).
    pub fn pre_collapse(&mut self, cell: CellId, tile: TileId) -> (done: Result<(), WfcError>)
        requires
            old(self).wf(),
        ensures
            final(self).wf(),
            final(self).same_setup(old(self)),
            done == old(self).pre_collapse_answer(cell, tile),
            done is Err ==> final(self).progress() == old(self).progress(),
            done is Ok ==> is_decision(old(self).cells(), final(self).cells(), cell, tile)
                && final(self).count() == count_up(old(self).count()) && never_grows(
                old(self).cells(),
                final(self).cells(),
            ),
            old(self).count_consistent() ==> final(self).count_consistent(),
            repeatable(old(self).tile_set(), old(self).measure()) ==> (done is Ok ==> final(self).progress() == decided(
                old(self).tile_set(),
                old(self).measure(),
                old(self).grid().neighbor_slots(),
                old(self).progress(),
                cell,
                tile,
            )),
    {
        let ghost before = self.wfc_data.deep_view();
        if cell >= self.wfc_data.len() {
            return Err(WfcError::CellNotFound(cell));
        }
        if self.wfc_data[cell].state != CellState::Uncollapsed {
            return Err(WfcError::CellAlreadyCollapsed);
        }
        if !holds(&self.wfc_data[cell].possibilities, tile) {
            return Err(WfcError::InvalidTileChoice);
        }
        decide_cell(
            &self.grid,
            &self.tile_set,
            &self.measure,
            &mut self.wfc_data,
            &mut self.completed_count,
            cell,
            tile,
        );
        proof {
            lemma_collapsed_count_bound(before);
            lemma_decision_effects(before, self.wfc_data.deep_view(), cell, tile);
        }
        Ok(())
    }

    /// What `pre_collapse` answers.
    pub open spec fn pre_collapse_answer(&self, cell: CellId, tile: TileId) -> Result<
        (),
        WfcError,
    > {
        if cell >= self.cells().len() {
            Err(WfcError::CellNotFound(cell))
        } else if self.cells()[cell as int].state != CellState::Uncollapsed {
            Err(WfcError::CellAlreadyCollapsed)
        } else if !self.cells()[cell as int].possibilities.contains(tile) {
            Err(WfcError::InvalidTileChoice)
        } else {
            Ok(())
        }
    }

    /// Repairs the conflicts among the cells, in layers. Returns whether
    /// the repair succeeded; it does where there is no conflict. A repair
    /// that succeeds leaves no cell in conflict.
    pub fn resolve_conflicts(&mut self) -> (done: Result<bool, WfcError>)
        requires
            old(self).wf(),
        ensures
            final(self).wf(),
            final(self).same_setup(old(self)),
            cells_persist(old(self).cells(), final(self).cells()),
            done is Ok,
            done == Ok::<bool, WfcError>(true) ==> free_of_conflicts(final(self).cells()),
            free_of_conflicts(old(self).cells()) ==> done == Ok::<bool, WfcError>(true) && final(self).progress() == old(self).progress(),
            old(self).settings().max_recursion_depth == 0 && !free_of_conflicts(old(self).cells())
                ==> done == Ok::<bool, WfcError>(false) && final(self).progress() == old(self).progress(),
            repeatable(old(self).tile_set(), old(self).measure()) ==> (Outcome {
                solved: done == Ok::<bool, WfcError>(true),
                cells: final(self).cells(),
                count: final(self).count(),
            }) == repaired(
                old(self).tile_set(),
                old(self).measure(),
                old(self).grid().neighbor_slots(),
                old(self).cells(),
                old(self).count(),
                old(self).settings().max_recursion_depth,
            ),
    {
        let ghost before = self.wfc_data.deep_view();
        proof {
            lemma_conflicts_listed(before);
            assert(cells_persist(before, before));
        }
        if !has_conflicts(&self.wfc_data) {
            proof {
                assert(free_of_conflicts(before));
            }
            return Ok(true);
        }
        proof {
            assert(!free_of_conflicts(before));
        }
        let solved = layered_backtrack_resolution(
            &self.grid,
            &self.tile_set,
            &self.measure,
            &mut self.wfc_data,
            &mut self.completed_count,
            self.config.max_recursion_depth,
        );
        Ok(solved)
    }
}

/// The list of the cells in conflict is empty exactly when no cell is in conflict.
pub proof fn lemma_conflicts_listed(cells: Seq<CellView>)
    requires
        cells.len() <= usize::MAX,
    ensures
        conflict_cells(cells).len() == 0 <==> free_of_conflicts(cells),
{
    let all = Seq::new(cells.len(), |i: int| i as usize);
    let in_conflict = |c: CellId| cells[c as int].state == CellState::Conflict;
    if conflict_cells(cells).len() == 0 {
        assert forall|c: int| 0 <= c < cells.len() implies (#[trigger] cells[c]).state
            != CellState::Conflict by {
            if cells[c].state == CellState::Conflict {
                assert(all[c] == c as usize);
                all.lemma_filter_contains(in_conflict, c);
                assert(all.filter(in_conflict).contains(all[c]));
            }
        }
    }
    if conflict_cells(cells).len() > 0 {
        let found = all.filter(in_conflict);
        all.lemma_filter_pred(in_conflict, 0);
        all.lemma_filter_contains_rev(in_conflict, found[0]);
        let c = found[0];
        assert(all.contains(c));
        let i = choose|i: int| 0 <= i < all.len() && all[i] == c;
        assert(cells[i].state == CellState::Conflict);
    }
}

/// What a run gives and leaves when it has `fuel` collapses to spend.
///
/// When every cell is counted as collapsed, the conflicts are repaired,
/// and the run fails with `UnresolvableConflicts` where they cannot be.
/// Until then the run collapses one cell after another, and fails with
/// `NoUncollapsedCells` where no cell is open.
pub open spec fn ran_from<EdgeData, T: TileSetVirtual<EdgeData>, M: EntropyMeasure>(
    tile_set: &T,
    measure: &M,
    slots: Seq<Seq<Option<CellId>>>,
    progress: Progress,
    max_depth: usize,
    fuel: nat,
) -> (Result<(), WfcError>, Progress)
    decreases fuel,
{
    if progress.count == slots.len() {
        let outcome = repaired(
            tile_set,
            measure,
            slots,
            progress.cells,
            progress.count,
            max_depth,
        );
        (
            if outcome.solved {
                Ok(())
            } else {
                Err(WfcError::UnresolvableConflicts)
            },
            Progress { cells: outcome.cells, count: outcome.count },
        )
    } else if fuel == 0 {
        (Err(WfcError::NoUncollapsedCells), progress)
    } else {
        match collapsed_once(tile_set, measure, slots, progress) {
            Some(next) => ran_from(tile_set, measure, slots, next, max_depth, (fuel - 1) as nat),
            None => (Err(WfcError::NoUncollapsedCells), progress),
        }
    }
}

/// Not gaining tiles twice is not gaining tiles.
pub proof fn lemma_never_grows_twice(a: Seq<CellView>, b: Seq<CellView>, c: Seq<CellView>)
    requires
        never_grows(a, b),
        never_grows(b, c),
    ensures
        never_grows(a, c),
{
    assert forall|i: int| 0 <= i < a.len() implies crate::propagation::is_selection(
        a[i].possibilities,
        (#[trigger] c[i]).possibilities,
    ) by {
        assert(crate::propagation::is_selection(a[i].possibilities, b[i].possibilities));
        assert(crate::propagation::is_selection(b[i].possibilities, c[i].possibilities));
        assert forall|k: int| 0 <= k < c[i].possibilities.len() implies a[i].possibilities.contains(
            #[trigger] c[i].possibilities[k],
        ) by {
            assert(b[i].possibilities.contains(c[i].possibilities[k]));
        }
        crate::propagation::lemma_keeps_order_twice(
            a[i].possibilities,
            b[i].possibilities,
            c[i].possibilities,
        );
    }
}

impl<EdgeData, T: TileSetVirtual<EdgeData>, M: EntropyMeasure> WfcManager<EdgeData, T, M> {
    /// What a run gives and leaves, for capabilities that answer as
    /// functions do. A run needs no more collapses than there are open cells.
    pub open spec fn ran(&self) -> (Result<(), WfcError>, Progress) {
        ran_from(
            self.tile_set(),
            self.measure(),
            self.grid().neighbor_slots(),
            self.progress(),
            self.settings().max_recursion_depth,
            open_count(self.cells()) + 1,
        )
    }

    /// Runs the solver to the end: collapses cells until every cell is
    /// counted as collapsed, then repairs the conflicts that are left.
    ///
    /// Succeeds with no cell in conflict. Fails
    /// with `NoUncollapsedCells` where cells are left to count and none is
    /// open, and with `UnresolvableConflicts` where the repair fails.
    pub fn run(&mut self) -> (done: Result<(), WfcError>)
        requires
            old(self).wf(),
        ensures
            final(self).wf(),
            final(self).same_setup(old(self)),
            cells_persist(old(self).cells(), final(self).cells()),
            done is Ok ==> free_of_conflicts(final(self).cells()),
            old(self).count_consistent() && done is Ok ==> final(self).count() == final(self).grid().cell_count(),
            done matches Err(e) ==> e == WfcError::NoUncollapsedCells || e
                == WfcError::UnresolvableConflicts,
            old(self).count_consistent() ==> final(self).count_consistent() && never_grows(
                old(self).cells(),
                final(self).cells(),
            ) && done != Err::<(), WfcError>(WfcError::UnresolvableConflicts),
            repeatable(old(self).tile_set(), old(self).measure()) ==> (done, final(self).progress()) == old(self).ran(),
    {
        let ghost before = self.wfc_data.deep_view();
        let ghost start = *self;
        let ghost slots = self.grid.neighbor_slots();
        let ghost mut fuel: nat = open_count(before) + 1;
        proof {
            assert(cells_persist(before, before));
            assert(never_grows(before, before)) by {
                assert forall|i: int| 0 <= i < before.len() implies crate::propagation::is_selection(
                    before[i].possibilities,
                    (#[trigger] before[i]).possibilities,
                ) by {
                    crate::propagation::lemma_keeps_order_same(before[i].possibilities);
                }
            }
        }
        while !self.is_complete()
            invariant
                self.wf(),
                self.same_setup(&start),
                start == *old(self),
                before == start.cells(),
                slots == self.grid.neighbor_slots(),
                cells_persist(before, self.wfc_data.deep_view()),
                open_count(self.wfc_data.deep_view()) + 1 <= fuel,
                start.count_consistent() ==> self.count_consistent() && never_grows(
                    before,
                    self.wfc_data.deep_view(),
                ),
                repeatable(&self.tile_set, &self.measure) ==> ran_from(
                    &self.tile_set,
                    &self.measure,
                    slots,
                    self.progress(),
                    self.config.max_recursion_depth,
                    fuel,
                ) == start.ran(),
            decreases open_count(self.wfc_data.deep_view()),
        {
            let ghost here = self.wfc_data.deep_view();
            if self.wfc_data.len() != self.grid.get_cells_count() {
                return Err(WfcError::NoUncollapsedCells);
            }
            match collapse(
                &self.grid,
                &self.tile_set,
                &self.measure,
                &mut self.wfc_data,
                &mut self.completed_count,
            ) {
                Ok(()) => {
                    proof {
                        let after = self.wfc_data.deep_view();
                        let cell_id = min_entropy_cell(here)->0;
                        crate::collapse::lemma_min_entropy_cell(here, here.len() as int);
                        let tile = choose|tile: TileId|
                            here[cell_id as int].possibilities.contains(tile)
                                && #[trigger] is_decision(here, after, cell_id, tile);
                        lemma_decision_effects(here, after, cell_id, tile);
                        lemma_collapsed_count_bound(here);
                        crate::repair::lemma_cells_persist_twice(before, here, after);
                        if start.count_consistent() {
                            lemma_never_grows_twice(before, here, after);
                        }
                        fuel = (fuel - 1) as nat;
                    }
                },
                Err(e) => {
                    return Err(e);
                },
            }
        }
        let ghost counted = self.wfc_data.deep_view();
        proof {
            lemma_conflicts_listed(counted);
            lemma_collapsed_count_bound(counted);
        }
        if !has_conflicts(&self.wfc_data) {
            proof {
                assert(free_of_conflicts(counted));
            }
            return Ok(());
        }
        proof {
            assert(!free_of_conflicts(counted));
            if self.count_consistent() {
                let c = choose|c: int|
                    0 <= c < counted.len() && (#[trigger] counted[c]).state
                        == CellState::Conflict;
                assert(counted[c].state == CellState::Collapsed);
            }
        }
        let solved = layered_backtrack_resolution(
            &self.grid,
            &self.tile_set,
            &self.measure,
            &mut self.wfc_data,
            &mut self.completed_count,
            self.config.max_recursion_depth,
        );
        proof {
            crate::repair::lemma_cells_persist_twice(before, counted, self.wfc_data.deep_view());
        }
        if solved {
            Ok(())
        } else {
            Err(WfcError::UnresolvableConflicts)
        }
    }
}

/// Runs repeat. Two solvers with the same neighbour slots, capabilities,
/// repair depth, cells and count of collapses give the same result and
/// are left with the same cells and count by a step, and by a run.
pub proof fn lemma_same_state_same_step<EdgeData, T: TileSetVirtual<EdgeData>, M: EntropyMeasure>(
    first: &WfcManager<EdgeData, T, M>,
    second: &WfcManager<EdgeData, T, M>,
)
    requires
        first.grid().neighbor_slots() == second.grid().neighbor_slots(),
        first.grid().cell_count() == second.grid().cell_count(),
        first.tile_set() == second.tile_set(),
        first.measure() == second.measure(),
        first.settings().max_recursion_depth == second.settings().max_recursion_depth,
        first.progress() == second.progress(),
    ensures
        first.stepped() == second.stepped(),
        first.ran() == second.ran(),
{
}

/// Initialisation repeats, as a whole. Take two solvers with the same
/// number of cells, the same measure, and generators with the same seed
/// and draws taken. Where the tile sets return the same from their build
/// and are equal after it, and the capabilities answer as functions do,
/// both initialisations succeed or both fail, a grid error is the same
/// error, and after a success the cells of the two solvers are equal.
pub proof fn lemma_same_start_same_initialization<
    EdgeData,
    T: TileSetVirtual<EdgeData>,
    M: EntropyMeasure,
>(
    first_before: &WfcManager<EdgeData, T, M>,
    first: &WfcManager<EdgeData, T, M>,
    second_before: &WfcManager<EdgeData, T, M>,
    second: &WfcManager<EdgeData, T, M>,
    built: Result<(), GridError>,
    first_done: Result<(), WfcError>,
    second_done: Result<(), WfcError>,
)
    requires
        first.is_initialization_of(first_before, built, first_done),
        second.is_initialization_of(second_before, built, second_done),
        first.tile_set() == second.tile_set(),
        first_before.measure() == second_before.measure(),
        first_before.engine() == second_before.engine(),
        first_before.grid().cell_count() == second_before.grid().cell_count(),
        repeatable(first.tile_set(), first.measure()),
    ensures
        first_done is Ok <==> second_done is Ok,
        first_done matches Err(WfcError::Grid(_)) ==> second_done == first_done,
        first_done matches Err(WfcError::InitializationFailed(_)) <==> second_done matches Err(
            WfcError::InitializationFailed(_),
        ),
        first_done is Ok ==> first.cells() == second.cells(),
{
    if built is Ok {
        let ids_first = choose|ids: Seq<TileId>|
            ids_may_be(first.tile_set(), ids) && #[trigger] first.is_filling_of(
                first_before,
                ids,
                first_done,
            );
        let ids_second = choose|ids: Seq<TileId>|
            ids_may_be(second.tile_set(), ids) && #[trigger] second.is_filling_of(
                second_before,
                ids,
                second_done,
            );
        assert(ids_first == ids_second);
    }
}

/// Initialisation repeats. Generators made from the same seed, with the
/// same number of draws taken, give the cells the same seeds, the same
/// numbers and the same possibilities.
pub proof fn lemma_same_seed_same_cells<EdgeData, T: TileSetVirtual<EdgeData>, M: EntropyMeasure>(
    tile_set: &T,
    measure: &M,
    first: Engine,
    second: Engine,
    count: nat,
)
    requires
        first.seed == second.seed,
        first.drawn == second.drawn,
    ensures
        initial_cells(tile_set, measure, first.seed, first.drawn as nat, count) == initial_cells(
            tile_set,
            measure,
            second.seed,
            second.drawn as nat,
            count,
        ),
{
}

} // verus!

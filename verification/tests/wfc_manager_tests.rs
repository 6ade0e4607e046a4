use rlwfc::{
    Cell, CellId, CellState, CellWfcData, DefaultInitializer, EntropyMeasure, GridError,
    GridSystem, StepResult, Tile, TileId, TileSet, TileSetVirtual, WfcConfig, WfcError,
    WfcManager,
};

/// Shannon entropy of the weights, as the bit pattern of the double.
struct Shannon;

fn shannon(weights: &[i32]) -> f64 {
    let total: f64 = weights.iter().map(|&w| w as f64).sum();
    if total == 0.0 {
        return (weights.len() as f64).log2();
    }
    weights
        .iter()
        .map(|&w| w as f64 / total)
        .filter(|&p| p > 0.0)
        .map(|p| -p * p.log2())
        .sum()
}

impl EntropyMeasure for Shannon {
    fn entropy_key(&self, weights: &[i32]) -> u64 {
        shannon(weights).to_bits()
    }
}

struct TestTileSet {
    tiles: TileSet<&'static str>,
}

impl TestTileSet {
    pub fn new() -> Self {
        let mut tiles = TileSet::new();
        tiles.add_tile(vec!["A", "B", "C", "D"], 10);
        tiles.add_tile(vec!["B", "A", "D", "C"], 15);
        Self { tiles }
    }
}

impl TileSetVirtual<&'static str> for TestTileSet {
    fn build_tile_set(&mut self) -> Result<(), GridError> {
        Ok(())
    }

    fn judge_possibility(
        &self,
        _neighbor_possibilities: &[Vec<TileId>],
        _candidate: TileId,
    ) -> bool {
        true
    }

    fn get_tile(&self, tile_id: TileId) -> Option<&Tile<&'static str>> {
        self.tiles.get_tile(tile_id)
    }

    fn get_tile_count(&self) -> usize {
        self.tiles.get_tile_count()
    }

    fn get_all_tile_ids(&self) -> Vec<TileId> {
        self.tiles.get_all_tile_ids()
    }
}

/// Tiles with one label for each of the directions north, west, south and
/// east. Two tiles fit where the labels on the shared side are equal.
struct SquareTileSet {
    tiles: TileSet<i32>,
    catalog: Vec<([i32; 4], i32)>,
    fail_to_build: bool,
}

impl SquareTileSet {
    fn new(catalog: Vec<([i32; 4], i32)>) -> Self {
        Self { tiles: TileSet::new(), catalog, fail_to_build: false }
    }

    fn pipes() -> Self {
        Self::new(vec![
            ([0, 0, 0, 0], 10),
            ([1, 1, 1, 1], 10),
            ([1, 0, 1, 0], 10),
            ([0, 1, 0, 1], 10),
            ([0, 1, 1, 1], 10),
            ([1, 0, 1, 1], 10),
            ([1, 1, 0, 1], 10),
            ([1, 1, 1, 0], 10),
        ])
    }
}

fn fits(tiles: &TileSet<i32>, neighbor_possibilities: &[Vec<TileId>], candidate: TileId) -> bool {
    let candidate_tile = match tiles.get_tile(candidate) {
        Some(tile) => tile,
        None => return false,
    };
    for (direction, neighbor_tiles) in neighbor_possibilities.iter().enumerate() {
        if neighbor_tiles.is_empty() {
            continue;
        }
        let facing = match direction {
            0 => 2,
            1 => 3,
            2 => 0,
            3 => 1,
            _ => continue,
        };
        let edge = candidate_tile.edges[direction];
        let mut found = false;
        for &id in neighbor_tiles {
            if let Some(tile) = tiles.get_tile(id) {
                if tile.edges[facing] == edge {
                    found = true;
                    break;
                }
            }
        }
        if !found {
            return false;
        }
    }
    true
}

impl TileSetVirtual<i32> for SquareTileSet {
    fn build_tile_set(&mut self) -> Result<(), GridError> {
        if self.fail_to_build {
            return Err(GridError::InvalidDirection);
        }
        self.tiles.clear();
        for (edges, weight) in self.catalog.iter() {
            self.tiles.add_tile(edges.to_vec(), *weight);
        }
        Ok(())
    }

    fn judge_possibility(&self, neighbor_possibilities: &[Vec<TileId>], candidate: TileId) -> bool {
        fits(&self.tiles, neighbor_possibilities, candidate)
    }

    fn get_tile(&self, tile_id: TileId) -> Option<&Tile<i32>> {
        self.tiles.get_tile(tile_id)
    }

    fn get_tile_count(&self) -> usize {
        self.tiles.get_tile_count()
    }

    fn get_all_tile_ids(&self) -> Vec<TileId> {
        self.tiles.get_all_tile_ids()
    }
}

/// A grid of `width` by `height` cells, row by row. Every cell gets four
/// neighbour slots: north, west, south, east at positions 0 to 3.
fn square_grid(width: usize, height: usize) -> GridSystem {
    let mut grid = GridSystem::new();
    for i in 0..width * height {
        grid.add_cell(Cell::with_id(i as u32));
    }
    for y in 0..height {
        for x in 0..width {
            let here = y * width + x;
            let east = if x + 1 < width { Some(here + 1) } else { None };
            let south = if y + 1 < height { Some(here + width) } else { None };
            let west = if x > 0 { Some(here - 1) } else { None };
            let north = if y > 0 { Some(here - width) } else { None };
            grid.create_edge(here, east).unwrap();
            grid.create_edge(here, south).unwrap();
            grid.create_edge(here, west).unwrap();
            grid.create_edge(here, north).unwrap();
        }
    }
    grid
}

fn seeded(seed: u64) -> WfcConfig {
    WfcConfig { max_recursion_depth: 3, random_seed: Some(seed) }
}

fn pipe_solver(width: usize, height: usize, seed: u64) -> WfcManager<i32, SquareTileSet, Shannon> {
    let mut manager =
        WfcManager::with_config(square_grid(width, height), SquareTileSet::pipes(), Shannon, seeded(seed))
            .unwrap();
    manager.initialize().unwrap();
    manager
}

fn cells_of<T: TileSetVirtual<i32>>(manager: &WfcManager<i32, T, Shannon>) -> Vec<CellWfcData> {
    let count = manager.get_grid().get_cells_count();
    (0..count).map(|c| manager.get_cell_data(c).unwrap()).collect()
}

fn describe(cells: &[CellWfcData]) -> Vec<(CellState, u64, u64, i32, Vec<TileId>)> {
    cells
        .iter()
        .map(|c| (c.state, c.entropy, c.rand_seed, c.rand_num, c.possibilities.clone()))
        .collect()
}

/// The relations between the state of a cell and its possibilities that
/// hold between the steps of the solver.
fn check_cells(cells: &[CellWfcData], completed: usize) {
    let mut collapsed = 0;
    for cell in cells {
        assert_eq!(cell.state == CellState::Conflict, cell.possibilities.is_empty());
        if cell.state == CellState::Collapsed {
            assert_eq!(cell.possibilities.len(), 1);
            assert_eq!(cell.entropy, 0);
            collapsed += 1;
        }
        if cell.possibilities.len() >= 2 {
            assert_eq!(cell.state, CellState::Uncollapsed);
        }
        assert!(cell.rand_num >= 0);
    }
    assert_eq!(completed, collapsed);
}

/// Every collapsed cell fits its collapsed neighbours.
fn check_compatibility(manager: &WfcManager<i32, SquareTileSet, Shannon>) {
    let grid = manager.get_grid();
    for cell in grid.get_all_cells() {
        let tile = match manager.get_collapsed_cell_tile(cell) {
            Ok(tile) => tile,
            Err(_) => continue,
        };
        let here = manager.get_tile(tile).unwrap();
        let slots = grid.get_neighbor_slots(cell);
        for (direction, slot) in slots.iter().enumerate() {
            if let Some(neighbor) = slot {
                if let Ok(other) = manager.get_collapsed_cell_tile(*neighbor) {
                    let there = manager.get_tile(other).unwrap();
                    let facing = (direction + 2) % 4;
                    assert_eq!(here.edges[direction], there.edges[facing]);
                }
            }
        }
    }
}

#[test]
fn test_wfc_manager_creation() {
    let grid = GridSystem::new();
    let tile_set = TestTileSet::new();

    let manager = WfcManager::new(grid, tile_set, Shannon).unwrap();
    assert_eq!(manager.completed_count(), 0);
    assert!(manager.is_complete());
}

#[test]
fn test_wfc_states() {
    assert_eq!(CellState::Uncollapsed, CellState::Uncollapsed);
    assert_ne!(CellState::Uncollapsed, CellState::Collapsed);

    let data = CellWfcData::new(12345, vec![0, 1]);
    assert_eq!(data.state, CellState::Uncollapsed);
    assert_eq!(data.rand_seed, 12345);
    assert_eq!(data.possibilities.len(), 2);
}

#[test]
fn the_number_of_a_cell_comes_from_its_seed_alone() {
    let first = CellWfcData::new(12345, vec![0, 1]);
    let again = CellWfcData::new(12345, vec![3]);
    let other = CellWfcData::new(12346, vec![0, 1]);
    assert_eq!(first.rand_num, again.rand_num);
    assert!(first.rand_num >= 0);
    assert!(other.rand_num >= 0);
    assert_ne!(first.rand_num, 12345);
    assert_ne!(first.rand_num, other.rand_num);
    assert_eq!(first.entropy, 0);

    let copy = first.duplicate();
    assert_eq!(describe(&[copy]), describe(&[first]));
}

#[test]
fn trivial_singleton_collapses_to_its_one_tile() {
    let mut grid = GridSystem::new();
    let only = grid.add_cell(Cell::new());
    let tiles = SquareTileSet::new(vec![([7, 7, 7, 7], 1)]);
    let mut manager = WfcManager::new(grid, tiles, Shannon).unwrap();
    let mut initializer = DefaultInitializer;
    manager.initialize_with(&mut initializer).unwrap();
    assert!(!manager.is_complete());

    manager.run().unwrap();

    assert_eq!(manager.get_cell_state(only), Ok(CellState::Collapsed));
    assert_eq!(manager.get_collapsed_cell_tile(only), Ok(0));
    assert!(manager.is_complete());
    assert_eq!(manager.run_step(), Ok(StepResult::Complete));
}

fn two_cell_grid() -> (GridSystem, CellId, CellId) {
    let mut grid = GridSystem::new();
    let a = grid.add_cell(Cell::new());
    let b = grid.add_cell(Cell::new());
    grid.create_edge(a, None).unwrap();
    grid.create_edge(a, None).unwrap();
    grid.create_edge(a, Some(b)).unwrap();
    grid.create_edge(a, None).unwrap();
    grid.create_edge(b, Some(a)).unwrap();
    grid.create_edge(b, None).unwrap();
    grid.create_edge(b, None).unwrap();
    grid.create_edge(b, None).unwrap();
    (grid, a, b)
}

const L: i32 = 0;
const R: i32 = 1;

#[test]
fn two_cells_collapse_to_opposite_tiles() {
    for seed in 0..20u64 {
        let (grid, a, b) = two_cell_grid();
        assert_eq!(grid.get_neighbor_slots(a), vec![None, Some(b), None, None]);
        assert_eq!(grid.get_neighbor_slots(b), vec![None, None, None, Some(a)]);
        let tiles = SquareTileSet::new(vec![([L, R, L, L], 1), ([R, L, R, R], 1)]);
        let mut manager = WfcManager::with_config(grid, tiles, Shannon, seeded(seed)).unwrap();
        manager.initialize().unwrap();
        assert_eq!(manager.get_cell_data(a).unwrap().possibilities, vec![0, 1]);
        assert_eq!(manager.get_cell_data(a).unwrap().entropy, 1.0f64.to_bits());

        manager.run().unwrap();

        let tile_a = manager.get_collapsed_cell_tile(a).unwrap();
        let tile_b = manager.get_collapsed_cell_tile(b).unwrap();
        assert_ne!(tile_a, tile_b);
        check_compatibility(&manager);
        check_cells(&cells_of(&manager), manager.completed_count());
    }
}

#[test]
fn four_cell_square_is_solved_for_a_hundred_seeds() {
    for seed in 0..100u64 {
        let mut manager = pipe_solver(2, 2, seed);
        let mut steps = 0;
        loop {
            let before = cells_of(&manager);
            let result = manager.run_step().unwrap();
            steps += 1;
            let after = cells_of(&manager);
            check_cells(&after, manager.completed_count());
            for (old, new) in before.iter().zip(after.iter()) {
                assert!(new.possibilities.len() <= old.possibilities.len());
                assert!(new.possibilities.iter().all(|t| old.possibilities.contains(t)));
                assert_eq!(new.rand_seed, old.rand_seed);
                assert_eq!(new.rand_num, old.rand_num);
            }
            if result == StepResult::Complete {
                break;
            }
            assert_eq!(result, StepResult::Collapsed);
            assert!(steps <= 4 * 8);
        }
        assert!(manager.is_complete());
        for cell in 0..4 {
            assert_eq!(manager.get_cell_state(cell), Ok(CellState::Collapsed));
        }
        check_compatibility(&manager);
    }
}

#[test]
fn the_same_seed_gives_the_same_run_step_by_step() {
    for seed in [1u64, 7, 4242] {
        let mut first = pipe_solver(2, 2, seed);
        let mut second = pipe_solver(2, 2, seed);
        assert_eq!(describe(&cells_of(&first)), describe(&cells_of(&second)));
        loop {
            let a = first.run_step();
            let b = second.run_step();
            assert_eq!(a, b);
            assert_eq!(describe(&cells_of(&first)), describe(&cells_of(&second)));
            assert_eq!(first.completed_count(), second.completed_count());
            if a != Ok(StepResult::Collapsed) {
                break;
            }
        }
    }
    let one = pipe_solver(3, 3, 1);
    let two = pipe_solver(3, 3, 2);
    let seeds_one: Vec<u64> = cells_of(&one).iter().map(|c| c.rand_seed).collect();
    let seeds_two: Vec<u64> = cells_of(&two).iter().map(|c| c.rand_seed).collect();
    assert_ne!(seeds_one, seeds_two);
    assert_ne!(seeds_one[0], seeds_one[1]);
    assert_ne!(seeds_one[0], 1);
}

#[test]
fn initialisation_gives_every_cell_the_catalog_and_its_entropy() {
    let manager = pipe_solver(3, 3, 5);
    let cells = cells_of(&manager);
    assert_eq!(cells.len(), 9);
    for cell in &cells {
        assert_eq!(cell.state, CellState::Uncollapsed);
        assert_eq!(cell.possibilities, vec![0, 1, 2, 3, 4, 5, 6, 7]);
        assert_eq!(cell.entropy, 3.0f64.to_bits());
        assert_eq!(cell.rand_num, CellWfcData::new(cell.rand_seed, vec![]).rand_num);
    }
    assert_eq!(manager.completed_count(), 0);
    assert_eq!(manager.get_all_tile_ids(), vec![0, 1, 2, 3, 4, 5, 6, 7]);
    assert_eq!(manager.get_tile(2).unwrap().edges, vec![1, 0, 1, 0]);
    assert!(manager.get_tile(8).is_none());
}

#[test]
fn entropy_of_unequal_weights_is_the_shannon_entropy() {
    let grid = square_grid(1, 1);
    let tiles = SquareTileSet::new(vec![([0, 0, 0, 0], 1), ([0, 0, 0, 0], 3)]);
    let mut manager = WfcManager::with_config(grid, tiles, Shannon, seeded(3)).unwrap();
    manager.initialize().unwrap();
    let expected = -(0.25f64 * 0.25f64.log2()) - (0.75f64 * 0.75f64.log2());
    assert_eq!(manager.get_cell_data(0).unwrap().entropy, expected.to_bits());
    assert_eq!(shannon(&[0, 0, 0, 0]), 2.0);
}

#[test]
fn an_empty_tile_set_fails_the_initialisation() {
    let tiles = SquareTileSet::new(vec![]);
    let mut manager = WfcManager::new(square_grid(2, 1), tiles, Shannon).unwrap();
    let done = manager.initialize();
    assert!(matches!(done, Err(WfcError::InitializationFailed(_))));
    assert!(manager.get_cell_data(0).is_none());
    assert_eq!(manager.get_cell_state(0), Err(WfcError::CellNotFound(0)));
    assert_eq!(manager.run_step(), Err(WfcError::NoUncollapsedCells));
}

#[test]
fn an_empty_tile_set_fails_the_initialisation_of_a_grid_without_cells() {
    let tiles = SquareTileSet::new(vec![]);
    let mut manager = WfcManager::new(GridSystem::new(), tiles, Shannon).unwrap();
    assert!(matches!(manager.initialize(), Err(WfcError::InitializationFailed(_))));

    let mut filled = WfcManager::new(GridSystem::new(), SquareTileSet::pipes(), Shannon).unwrap();
    assert_eq!(filled.initialize(), Ok(()));
    assert_eq!(filled.completed_count(), 0);
    assert_eq!(filled.run_step(), Ok(StepResult::Complete));
    assert_eq!(filled.get_all_tile_ids().len(), 8);
}

#[test]
fn propagation_keeps_the_order_of_the_tiles_and_the_cell_it_starts_from() {
    let mut manager = pipe_solver(3, 3, 12);
    manager.pre_collapse(4, 2).unwrap();
    let cells = cells_of(&manager);
    assert_eq!(cells[4].possibilities, vec![2]);
    assert_eq!(cells[4].state, CellState::Collapsed);
    for cell in &cells {
        let mut sorted = cell.possibilities.clone();
        sorted.sort();
        sorted.dedup();
        assert_eq!(sorted, cell.possibilities);
    }
    assert_eq!(cells[1].possibilities, vec![1, 2, 4, 5, 7]);
    assert_eq!(cells[3].possibilities, vec![0, 2, 7]);
}

#[test]
fn an_error_of_the_tile_set_is_handed_on() {
    let mut tiles = SquareTileSet::pipes();
    tiles.fail_to_build = true;
    let mut manager = WfcManager::new(square_grid(2, 1), tiles, Shannon).unwrap();
    assert_eq!(manager.initialize(), Err(WfcError::Grid(GridError::InvalidDirection)));
    assert_eq!(WfcError::from(GridError::SelfLoop), WfcError::Grid(GridError::SelfLoop));
}

#[test]
fn pre_collapse_refuses_what_cannot_be() {
    let (grid, a, b) = two_cell_grid();
    let tiles = SquareTileSet::new(vec![([L, R, L, L], 1), ([R, L, R, R], 1)]);
    let mut manager = WfcManager::with_config(grid, tiles, Shannon, seeded(9)).unwrap();
    assert_eq!(manager.pre_collapse(a, 0), Err(WfcError::CellNotFound(a)));
    manager.initialize().unwrap();

    assert_eq!(manager.pre_collapse(5, 0), Err(WfcError::CellNotFound(5)));
    assert_eq!(manager.pre_collapse(a, 2), Err(WfcError::InvalidTileChoice));
    assert_eq!(manager.pre_collapse(a, 0), Ok(()));
    assert_eq!(manager.completed_count(), 1);
    assert_eq!(manager.get_collapsed_cell_tile(a), Ok(0));
    assert_eq!(manager.pre_collapse(a, 0), Err(WfcError::CellAlreadyCollapsed));

    let narrowed = manager.get_cell_data(b).unwrap();
    assert_eq!(narrowed.state, CellState::Uncollapsed);
    assert_eq!(narrowed.possibilities, vec![1]);
    assert_eq!(narrowed.entropy, 0);
    assert_eq!(manager.get_collapsed_cell_tile(b), Err(WfcError::InconsistentState));
    assert_eq!(manager.get_collapsed_cell_tile(9), Err(WfcError::CellNotFound(9)));

    assert_eq!(manager.pre_collapse(b, 0), Err(WfcError::InvalidTileChoice));
    assert_eq!(manager.run_step(), Ok(StepResult::Collapsed));
    assert_eq!(manager.get_collapsed_cell_tile(b), Ok(1));
    assert_eq!(manager.run_step(), Ok(StepResult::Complete));
    assert_eq!(manager.resolve_conflicts(), Ok(true));
}

/// Three cells in a row where only the middle one looks at the others: the
/// outer cells can be decided for tiles that leave the middle none.
fn one_way_row() -> GridSystem {
    let mut grid = GridSystem::new();
    let left = grid.add_cell(Cell::new());
    let middle = grid.add_cell(Cell::new());
    let right = grid.add_cell(Cell::new());
    grid.create_edge(middle, Some(right)).unwrap();
    grid.create_edge(middle, None).unwrap();
    grid.create_edge(middle, Some(left)).unwrap();
    grid.create_edge(middle, None).unwrap();
    grid.create_edge(right, None).unwrap();
    grid.create_edge(right, None).unwrap();
    grid.create_edge(right, Some(middle)).unwrap();
    grid.create_edge(right, None).unwrap();
    grid
}

#[test]
fn a_conflict_that_needs_one_more_layer_is_repaired() {
    let tiles = SquareTileSet::new(vec![([0, 0, 0, 0], 1), ([0, 1, 0, 1], 1)]);
    let mut manager = WfcManager::with_config(one_way_row(), tiles, Shannon, seeded(11)).unwrap();
    manager.initialize().unwrap();
    assert_eq!(manager.get_grid().get_neighbor_slots(1), vec![None, Some(0), None, Some(2)]);

    manager.pre_collapse(0, 0).unwrap();
    assert_eq!(manager.get_cell_state(1), Ok(CellState::Uncollapsed));
    manager.pre_collapse(2, 1).unwrap();
    assert_eq!(manager.get_cell_state(1), Ok(CellState::Conflict));
    assert!(manager.get_cell_data(1).unwrap().possibilities.is_empty());
    assert_eq!(manager.completed_count(), 2);
    assert_eq!(manager.run_step(), Err(WfcError::NoUncollapsedCells));

    let before = cells_of(&manager);
    assert_eq!(manager.resolve_conflicts(), Ok(true));
    let after = cells_of(&manager);
    for (old, new) in before.iter().zip(after.iter()) {
        assert_eq!(new.state, CellState::Collapsed);
        assert_eq!(new.possibilities.len(), 1);
        assert_eq!(new.entropy, 0);
        assert_eq!(new.rand_seed, old.rand_seed);
        assert_eq!(new.rand_num, old.rand_num);
    }
    assert_eq!(manager.get_collapsed_cell_tile(0), Ok(0));
    assert_eq!(manager.get_collapsed_cell_tile(2), Ok(0));
    assert_eq!(manager.get_collapsed_cell_tile(1), Ok(0));
    assert_eq!(manager.completed_count(), 5);
}

#[test]
fn a_conflict_that_no_tile_can_heal_is_left_standing() {
    let (grid, a, b) = two_cell_grid();
    let tiles = SquareTileSet::new(vec![([L, L, L, R], 1)]);
    let mut manager = WfcManager::with_config(grid, tiles, Shannon, seeded(2)).unwrap();
    manager.initialize().unwrap();

    assert_eq!(manager.pre_collapse(b, 0), Ok(()));
    assert_eq!(manager.get_cell_state(a), Ok(CellState::Conflict));
    assert_eq!(manager.pre_collapse(a, 0), Err(WfcError::CellAlreadyCollapsed));

    assert_eq!(manager.run_step(), Err(WfcError::NoUncollapsedCells));

    assert_eq!(manager.completed_count(), 1);
    assert_eq!(manager.resolve_conflicts(), Ok(false));
    assert_eq!(manager.completed_count(), 1);
    assert_eq!(manager.get_cell_state(a), Ok(CellState::Conflict));
    assert_eq!(manager.get_cell_state(b), Ok(CellState::Uncollapsed));
    assert_eq!(manager.get_cell_data(b).unwrap().possibilities, vec![0]);

    assert_eq!(manager.run_step(), Ok(StepResult::Collapsed));
    assert!(manager.is_complete());
    assert_eq!(manager.run_step(), Ok(StepResult::ConflictResolutionFailed));
    assert_eq!(manager.get_cell_state(a), Ok(CellState::Conflict));
    assert_eq!(manager.run(), Err(WfcError::UnresolvableConflicts));
}

#[test]
fn a_repair_that_fails_may_leave_every_cell_open() {
    let tiles = SquareTileSet::new(vec![([0, 1, 2, 1], 1)]);
    let mut manager = WfcManager::with_config(square_grid(3, 1), tiles, Shannon, seeded(4)).unwrap();
    manager.initialize().unwrap();

    manager.pre_collapse(0, 0).unwrap();
    assert_eq!(manager.get_cell_state(1), Ok(CellState::Conflict));
    assert_eq!(manager.get_cell_state(2), Ok(CellState::Conflict));

    assert_eq!(manager.resolve_conflicts(), Ok(false));
    for cell in 0..3 {
        assert_eq!(manager.get_cell_state(cell), Ok(CellState::Uncollapsed));
        assert_eq!(manager.get_cell_data(cell).unwrap().possibilities, vec![0]);
    }
    assert_eq!(manager.completed_count(), 1);
}

#[test]
fn a_repair_takes_the_last_cell_by_its_first_tile() {
    let (grid, a, b) = two_cell_grid();
    let tiles = SquareTileSet::new(vec![
        ([7, 1, 0, 1], 1),
        ([0, 2, 0, 2], 1),
        ([0, 9, 0, 8], 1),
    ]);
    let mut manager = WfcManager::with_config(grid, tiles, Shannon, seeded(6)).unwrap();
    manager.initialize().unwrap();

    manager.pre_collapse(a, 2).unwrap();
    assert_eq!(manager.get_cell_state(b), Ok(CellState::Conflict));

    assert_eq!(manager.resolve_conflicts(), Ok(true));
    assert_eq!(manager.get_collapsed_cell_tile(a), Ok(1));
    assert_eq!(manager.get_collapsed_cell_tile(b), Ok(0));
    assert_eq!(manager.completed_count(), 3);
    assert!(!manager.is_complete());
}

#[test]
fn a_snapshot_brings_the_cells_back() {
    let mut manager = pipe_solver(3, 3, 77);
    manager.run_step().unwrap();
    let snapshot = manager.create_snapshot();
    let kept = describe(&cells_of(&manager));
    let count = manager.completed_count();

    manager.run_step().unwrap();
    manager.run_step().unwrap();
    assert_ne!(describe(&cells_of(&manager)), kept);

    manager.restore_snapshot(&snapshot);
    assert_eq!(describe(&cells_of(&manager)), kept);
    assert_eq!(manager.completed_count(), count);

    manager.run().unwrap();
    manager.restore_snapshot(&snapshot);
    assert_eq!(describe(&cells_of(&manager)), kept);
}

#[test]
fn the_step_takes_the_open_cell_of_least_entropy_first() {
    let mut manager = pipe_solver(3, 1, 21);
    manager.pre_collapse(0, 2).unwrap();
    let cells = cells_of(&manager);
    assert!(cells[1].possibilities.len() < 8);
    assert_eq!(cells[2].possibilities.len(), 8);
    assert!(cells[1].entropy < cells[2].entropy);
    assert_eq!(manager.run_step(), Ok(StepResult::Collapsed));
    assert_eq!(manager.get_cell_state(1), Ok(CellState::Collapsed));
    assert_eq!(manager.get_cell_state(2), Ok(CellState::Uncollapsed));
}

#[test]
fn wfc_errors_have_their_messages() {
    assert_eq!(WfcError::Grid(GridError::SelfLoop).message(), "Grid error");
    assert_eq!(WfcError::NoUncollapsedCells.message(), "No uncollapsed cells available");
    assert_eq!(WfcError::CellNotFound(3).message(), "Cell not found in WFC data");
    assert_eq!(WfcError::TileNotFound.message(), "Tile not found in tile set");
    assert_eq!(WfcError::CellAlreadyCollapsed.message(), "Cell is already collapsed");
    assert_eq!(WfcError::InvalidTileChoice.message(), "Invalid tile choice for cell");
    assert_eq!(WfcError::UnresolvableConflicts.message(), "Conflicts cannot be resolved");
    assert_eq!(WfcError::InconsistentState.message(), "WFC system state is inconsistent");
    assert_eq!(
        WfcError::InitializationFailed("x".to_string()).message(),
        "Initialization failed"
    );
    let defaults = WfcConfig::default();
    assert_eq!(defaults.max_recursion_depth, 3);
    assert_eq!(defaults.random_seed, None);
}

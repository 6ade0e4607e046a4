use rlwfc::{Cell, Direction4, GridBuilder, GridError, GridSystem};

struct SimpleGridBuilder {
    width: usize,
    height: usize,
}

impl SimpleGridBuilder {
    fn new(width: usize, height: usize) -> Self {
        Self { width, height }
    }
}

impl GridBuilder for SimpleGridBuilder {
    fn build_grid_system(&mut self, grid: &mut GridSystem) -> Result<(), GridError> {
        let mut cells = vec![vec![]; self.height];

        for y in 0..self.height {
            cells[y] = Vec::with_capacity(self.width);
            for x in 0..self.width {
                let cell_id = grid.add_cell_with_name(
                    Cell::with_id((y * self.width + x) as u32),
                    format!("cell_{}_{}", x, y),
                );
                cells[y].push(cell_id);
            }
        }

        for y in 0..self.height {
            for x in 0..self.width {
                let current = cells[y][x];

                if x + 1 < self.width {
                    grid.create_edge(current, Some(cells[y][x + 1]))?;
                }

                if y + 1 < self.height {
                    grid.create_edge(current, Some(cells[y + 1][x]))?;
                }
            }
        }

        Ok(())
    }

    fn get_dimensions(&self) -> Vec<usize> {
        vec![self.width, self.height]
    }

    fn get_grid_type_name(&self) -> &'static str {
        "SimpleGrid"
    }
}

#[test]
fn test_grid_system_creation() {
    let grid = GridSystem::new();
    assert_eq!(grid.get_cells_count(), 0);
    assert_eq!(grid.get_edges_count(), 0);
}

#[test]
fn test_add_cells_and_edges() {
    let mut grid = GridSystem::new();

    let cell1 = grid.add_cell(Cell::with_id(1));
    let cell2 = grid.add_cell(Cell::with_id(2));

    assert_eq!(grid.get_cells_count(), 2);

    let _edge = grid.create_edge(cell1, Some(cell2)).unwrap();
    assert_eq!(grid.get_edges_count(), 1);

    let neighbors = grid.get_neighbors(cell1);
    assert_eq!(neighbors.len(), 1);
    assert_eq!(neighbors[0], cell2);
}

#[test]
fn test_direction_queries() {
    let mut grid = GridSystem::new();

    let cells = vec![
        vec![grid.add_cell(Cell::with_id(0)), grid.add_cell(Cell::with_id(1))],
        vec![grid.add_cell(Cell::with_id(2)), grid.add_cell(Cell::with_id(3))],
    ];

    let center = cells[0][0];
    let east = cells[0][1];
    let south = cells[1][0];

    grid.create_edge(center, Some(east)).unwrap();
    grid.create_edge(center, Some(south)).unwrap();

    assert_eq!(grid.get_neighbor_by_direction(center, Direction4::East), Some(east));
    assert_eq!(grid.get_neighbor_by_direction(center, Direction4::South), Some(south));
    assert_eq!(grid.get_neighbor_by_direction(center, Direction4::West), None);
    assert_eq!(grid.get_neighbor_by_direction(center, Direction4::North), None);
}

#[test]
fn test_error_handling() {
    let mut grid = GridSystem::new();

    let cell1 = grid.add_cell(Cell::new());

    assert_eq!(grid.create_edge(cell1, Some(cell1)), Err(GridError::SelfLoop));

    let cell2 = grid.add_cell(Cell::new());
    grid.create_edge(cell1, Some(cell2)).unwrap();
    assert_eq!(grid.create_edge(cell1, Some(cell2)), Err(GridError::EdgeAlreadyExists));
}

#[test]
fn test_named_cells() {
    let mut grid = GridSystem::new();

    let cell_id = grid.add_cell_with_name(Cell::new(), "test_cell".to_string());
    assert_eq!(grid.get_cell_by_name("test_cell"), Some(cell_id));
    assert_eq!(grid.get_cell_by_name("nonexistent"), None);
}

#[test]
fn test_structure_validation() {
    let mut grid = GridSystem::new();

    let cell1 = grid.add_cell(Cell::new());
    let cell2 = grid.add_cell(Cell::new());
    grid.create_edge(cell1, Some(cell2)).unwrap();

    assert!(grid.validate_structure().is_ok());
}

#[test]
fn test_grid_builder_trait() {
    let builder = SimpleGridBuilder::new(3, 2);
    let mut grid = GridSystem::new();

    grid.build_with(builder).unwrap();

    assert_eq!(grid.get_cells_count(), 6);

    assert!(grid.get_cell_by_name("cell_0_0").is_some());
    assert!(grid.get_cell_by_name("cell_2_1").is_some());
    assert!(grid.get_cell_by_name("cell_3_0").is_none());
}

#[test]
fn test_from_builder() {
    let builder = SimpleGridBuilder::new(2, 2);
    let grid = GridSystem::from_builder(builder).unwrap();

    assert_eq!(grid.get_cells_count(), 4);

    let cell_0_0 = grid.get_cell_by_name("cell_0_0").unwrap();
    let neighbors = grid.get_neighbors(cell_0_0);
    assert_eq!(neighbors.len(), 2);
}

#[test]
fn edge_handles_count_up_and_missing_ends_are_refused() {
    let mut grid = GridSystem::new();
    let a = grid.add_cell(Cell::new());
    let b = grid.add_cell(Cell::new());
    let c = grid.add_cell(Cell::new());
    assert_eq!((a, b, c), (0, 1, 2));

    assert_eq!(grid.create_edge(a, Some(b)), Ok(Some(0)));
    assert_eq!(grid.create_edge(b, Some(c)), Ok(Some(1)));
    assert_eq!(grid.create_edge(a, None), Ok(None));
    assert_eq!(grid.create_edge(a, Some(c)), Ok(Some(2)));
    assert_eq!(grid.get_edges_count(), 3);

    assert_eq!(grid.create_edge(7, Some(a)), Err(GridError::NodeNotFound));
    assert_eq!(grid.create_edge(a, Some(7)), Err(GridError::NodeNotFound));
    assert_eq!(grid.create_edge(7, None), Err(GridError::NodeNotFound));
    assert_eq!(grid.get_edges_count(), 3);

    assert_eq!(grid.find_edge(a, c), Some(2));
    assert_eq!(grid.find_edge(b, c), Some(1));
    assert_eq!(grid.find_edge(c, a), None);
    assert_eq!(grid.find_edge(a, 9), None);
    assert!(grid.contains_edge(a, b));
    assert!(!grid.contains_edge(b, a));
}

#[test]
fn neighbour_slots_hold_the_most_recent_edge_first() {
    let mut grid = GridSystem::new();
    let a = grid.add_cell(Cell::new());
    let b = grid.add_cell(Cell::new());
    let c = grid.add_cell(Cell::new());

    grid.create_edge(a, Some(b)).unwrap();
    grid.create_edge(a, None).unwrap();
    grid.create_edge(a, Some(c)).unwrap();

    assert_eq!(grid.get_neighbor_slots(a), vec![Some(c), None, Some(b)]);
    assert_eq!(grid.get_neighbors(a), vec![c, b]);
    assert_eq!(grid.get_cell_degree(a), 2);
    assert_eq!(grid.get_neighbor_slots(b), vec![]);
    assert_eq!(grid.get_neighbors(9), vec![]);
    assert_eq!(grid.get_neighbor_slots(9), vec![]);
    assert_eq!(grid.get_all_cells(), vec![0, 1, 2]);
    assert!(grid.contains_cell(c));
    assert!(!grid.contains_cell(3));
    assert!(grid.validate_structure().is_ok());
}

#[test]
fn incoming_directions_find_the_first_cell_that_points_here() {
    let mut grid = GridSystem::new();
    let west = grid.add_cell(Cell::new());
    let center = grid.add_cell(Cell::new());
    let north = grid.add_cell(Cell::new());

    grid.create_edge(west, Some(center)).unwrap();
    grid.create_edge(west, None).unwrap();
    grid.create_edge(north, None).unwrap();
    grid.create_edge(north, Some(center)).unwrap();

    assert_eq!(grid.get_neighbor_by_direction(center, Direction4::West), Some(west));
    assert_eq!(grid.get_neighbor_by_direction(center, Direction4::North), Some(north));
    assert_eq!(grid.find_incoming_neighbor_by_direction(center, Direction4::West), Some(west));
    assert_eq!(grid.first_pointing(1, center), Some(west));
    assert_eq!(grid.first_pointing(0, center), Some(north));
    assert_eq!(grid.first_pointing(2, center), None);
    assert_eq!(grid.get_neighbors_by_direction(center, Direction4::West), vec![west]);
    assert_eq!(grid.get_neighbors_by_direction(center, Direction4::East), vec![]);
    assert_eq!(grid.get_neighbor_by_direction(west, Direction4::South), None);
    assert_eq!(grid.get_neighbor_by_direction(west, Direction4::East), Some(center));
}

#[test]
fn a_name_names_the_cell_that_took_it_last_and_clear_empties_the_grid() {
    let mut grid = GridSystem::with_capacity(8, 8);
    let first = grid.add_cell_with_name(Cell::new(), "twice".to_string());
    let second = grid.add_cell_with_name(Cell::new(), "twice".to_string());
    assert_ne!(first, second);
    assert_eq!(grid.get_cell_by_name("twice"), Some(second));
    let (nodes, edges) = grid.capacity();
    assert!(nodes >= 8);
    assert!(edges >= 8);

    grid.clear();
    assert_eq!(grid.get_cells_count(), 0);
    assert_eq!(grid.get_edges_count(), 0);
    assert_eq!(grid.get_cell_by_name("twice"), None);
    assert_eq!(grid.add_cell(Cell::new()), 0);
}

#[test]
fn grid_errors_have_their_messages() {
    assert_eq!(GridError::SelfLoop.message(), "Cannot create self-loop edge");
    assert_eq!(GridError::EdgeAlreadyExists.message(), "Edge already exists");
    assert_eq!(GridError::NodeNotFound.message(), "Node not found");
    assert_eq!(GridError::EdgeNotFound.message(), "Edge not found");
    assert_eq!(GridError::IndexOutOfBounds.message(), "Index out of bounds");
    assert_eq!(GridError::CapacityExhausted.message(), "Graph capacity exhausted");
    assert_eq!(GridError::InvalidDirection.message(), "Invalid direction");
}

struct PairBuilder;

impl GridBuilder for PairBuilder {
    fn build_grid_system(&mut self, grid: &mut GridSystem) -> Result<(), GridError> {
        let a = grid.add_cell(Cell::new());
        let b = grid.add_cell(Cell::new());
        grid.create_edge(a, Some(b))?;
        grid.create_edge(a, Some(b))?;
        Ok(())
    }
}

#[test]
fn a_builder_has_defaults_and_its_error_comes_back() {
    let builder = PairBuilder;
    assert_eq!(builder.get_dimensions(), Vec::<usize>::new());
    assert_eq!(builder.get_grid_type_name(), "CustomGrid");
    assert_eq!(SimpleGridBuilder::new(3, 2).get_dimensions(), vec![3, 2]);
    assert_eq!(SimpleGridBuilder::new(3, 2).get_grid_type_name(), "SimpleGrid");

    let mut grid = GridSystem::new();
    assert_eq!(grid.build_with(PairBuilder), Err(GridError::EdgeAlreadyExists));
    assert_eq!(grid.get_cells_count(), 2);
    assert_eq!(grid.get_edges_count(), 1);
    assert!(GridSystem::from_builder(PairBuilder).is_err());
}

#[test]
fn a_grid_has_room_for_what_it_holds_and_for_what_it_was_made_to_hold() {
    let mut grid = GridSystem::with_capacity(100, 40);
    let (nodes, edges) = grid.capacity();
    assert!(nodes >= 100);
    assert!(edges >= 40);
    assert_eq!(grid.get_cells_count(), 0);
    assert_eq!(grid.get_edges_count(), 0);

    let mut cells = Vec::new();
    for _ in 0..150 {
        cells.push(grid.add_cell(Cell::new()));
    }
    for i in 0..149 {
        grid.create_edge(cells[i], Some(cells[i + 1])).unwrap();
    }
    let (nodes, edges) = grid.capacity();
    assert!(nodes >= 150);
    assert!(edges >= 149);

    grid.clear();
    let (nodes, edges) = grid.capacity();
    assert!(nodes >= 100);
    assert!(edges >= 40);

    let plain = GridSystem::new();
    let (nodes, edges) = plain.capacity();
    assert!(nodes >= plain.get_cells_count());
    assert!(edges >= plain.get_edges_count());

    let capped = GridSystem::with_capacity(usize::MAX, usize::MAX);
    let (nodes, edges) = capped.capacity();
    assert!(nodes >= 1 << 20);
    assert!(edges >= 1 << 20);
}

#[test]
fn named_cells_are_listed_once_with_the_cell_named_last() {
    let mut grid = GridSystem::new();
    assert_eq!(grid.get_named_cells(), vec![]);
    let a = grid.add_cell_with_name(Cell::new(), "a".to_string());
    let b = grid.add_cell_with_name(Cell::new(), "b".to_string());
    let plain = grid.add_cell(Cell::new());
    let again = grid.add_cell_with_name(Cell::new(), "a".to_string());
    assert_ne!(a, again);
    assert_eq!(plain, 2);

    let named = grid.get_named_cells();
    assert_eq!(named, vec![("a".to_string(), again), ("b".to_string(), b)]);
    for (name, cell) in named {
        assert_eq!(grid.get_cell_by_name(&name), Some(cell));
    }
}

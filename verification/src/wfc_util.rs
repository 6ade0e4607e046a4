//! Basic types shared by the grid, the tile set and the solver.

use vstd::prelude::*;
use vstd::std_specs::cmp::PartialEqSpec;

verus! {

/// Handle of a cell: its position in the order in which cells were added.
pub type CellId = usize;

/// Handle of an edge: its position in the order in which edges were added.
pub type EdgeId = usize;

/// Dense index of a tile in its tile set.
pub type TileId = usize;

pub type Cells = Vec<CellId>;

pub type Tiles = Vec<TileId>;

pub type Edges = Vec<EdgeId>;

/// Data attached to a cell of the grid. Both fields are optional labels
/// that the solver never reads.
#[derive(Debug, Clone, PartialEq, Eq)]
pub struct Cell {
    pub id: Option<u32>,
    pub name: Option<String>,
}

impl Cell {
    /// A cell without labels.
    pub fn new() -> (cell: Self)
        ensures
            cell.id is None,
            cell.name is None,
    {
        Cell { id: None, name: None }
    }

    /// A cell labelled with a number.
    pub fn with_id(id: u32) -> (cell: Self)
        ensures
            cell.id == Some(id),
            cell.name is None,
    {
        Cell { id: Some(id), name: None }
    }

    /// A cell labelled with a name.
    pub fn with_name(name: String) -> (cell: Self)
        ensures
            cell.id is None,
            cell.name == Some(name),
    {
        Cell { id: None, name: Some(name) }
    }
}

impl Default for Cell {
    fn default() -> (cell: Self)
        ensures
            cell.id is None,
            cell.name is None,
    {
        Cell::new()
    }
}

/// Data attached to an edge of the grid.
#[derive(Debug, Clone, PartialEq)]
pub struct GraphEdge {
    pub weight: Option<i32>,
    pub edge_type: Option<String>,
}

impl GraphEdge {
    /// An edge without weight or type.
    pub fn new() -> (edge: Self)
        ensures
            edge.weight is None,
            edge.edge_type is None,
    {
        GraphEdge { weight: None, edge_type: None }
    }

    /// An edge with a weight.
    pub fn with_weight(weight: i32) -> (edge: Self)
        ensures
            edge.weight == Some(weight),
            edge.edge_type is None,
    {
        GraphEdge { weight: Some(weight), edge_type: None }
    }

    /// An edge with a type label.
    pub fn with_type(edge_type: String) -> (edge: Self)
        ensures
            edge.weight is None,
            edge.edge_type == Some(edge_type),
    {
        GraphEdge { weight: None, edge_type: Some(edge_type) }
    }
}

impl Default for GraphEdge {
    fn default() -> (edge: Self)
        ensures
            edge.weight is None,
            edge.edge_type is None,
    {
        GraphEdge::new()
    }
}

/// What can go wrong when a grid is built or queried.
#[derive(Debug, Clone, Copy, PartialEq, Eq, Structural)]
pub enum GridError {
    /// An edge from a cell to itself was asked for.
    SelfLoop,
    /// The edge is already there.
    EdgeAlreadyExists,
    /// A cell handle names no cell of the grid.
    NodeNotFound,
    /// An edge handle names no edge of the grid.
    EdgeNotFound,
    IndexOutOfBounds,
    /// The grid cannot hold another cell or edge.
    CapacityExhausted,
    InvalidDirection,
}

impl GridError {
    /// The text that describes this error.
    pub fn message(&self) -> (text: &'static str)
        ensures
            text@ == match *self {
                GridError::SelfLoop => "Cannot create self-loop edge"@,
                GridError::EdgeAlreadyExists => "Edge already exists"@,
                GridError::NodeNotFound => "Node not found"@,
                GridError::EdgeNotFound => "Edge not found"@,
                GridError::IndexOutOfBounds => "Index out of bounds"@,
                GridError::CapacityExhausted => "Graph capacity exhausted"@,
                GridError::InvalidDirection => "Invalid direction"@,
            },
    {
        match self {
            GridError::SelfLoop => "Cannot create self-loop edge",
            GridError::EdgeAlreadyExists => "Edge already exists",
            GridError::NodeNotFound => "Node not found",
            GridError::EdgeNotFound => "Edge not found",
            GridError::IndexOutOfBounds => "Index out of bounds",
            GridError::CapacityExhausted => "Graph capacity exhausted",
            GridError::InvalidDirection => "Invalid direction",
        }
    }
}

/// A scheme of directions for a grid.
///
/// A grid lists the neighbours of a cell in a fixed order; a direction is
/// either found at a fixed position of that list, or (where
/// `to_neighbor_index` gives `None`) by looking for the cell that has this
/// one as its neighbour in the opposite direction.
pub trait DirectionTrait: Copy + PartialEq + Eq + core::hash::Hash + core::fmt::Debug {
    /// The position of this direction in a cell's neighbour list, if it has one.
    fn to_neighbor_index(&self) -> Option<usize>;

    /// The direction that points the other way, if there is one.
    fn opposite(&self) -> Option<Self>;

    /// Every direction of the scheme, in the order in which edges are to be created.
    fn all_directions() -> Vec<Self>;

    /// A name for this direction.
    fn name(&self) -> &'static str;
}

/// The four directions of a square grid.
///
/// Edges are created east first, then south; a cell's neighbour list holds
/// the most recent edge first, so south is at position 0 and east at
/// position 1. West and north are found from the other side.
#[derive(Debug, Clone, Copy, PartialEq, Eq, Hash, Structural)]
pub enum Direction4 {
    East,
    South,
    West,
    North,
}

impl Direction4 {
    /// The position that `to_neighbor_index` gives.
    pub open spec fn neighbor_index_spec(self) -> Option<usize> {
        match self {
            Direction4::South => Some(0usize),
            Direction4::East => Some(1usize),
            Direction4::West => None,
            Direction4::North => None,
        }
    }

    /// The direction that `opposite` gives.
    pub open spec fn opposite_spec(self) -> Direction4 {
        match self {
            Direction4::East => Direction4::West,
            Direction4::West => Direction4::East,
            Direction4::North => Direction4::South,
            Direction4::South => Direction4::North,
        }
    }
}

impl DirectionTrait for Direction4 {
    fn to_neighbor_index(&self) -> (index: Option<usize>)
        ensures
            index == self.neighbor_index_spec(),
    {
        match self {
            Direction4::South => Some(0),
            Direction4::East => Some(1),
            Direction4::West => None,
            Direction4::North => None,
        }
    }

    fn opposite(&self) -> (dir: Option<Self>)
        ensures
            dir == Some(self.opposite_spec()),
    {
        match self {
            Direction4::East => Some(Direction4::West),
            Direction4::West => Some(Direction4::East),
            Direction4::North => Some(Direction4::South),
            Direction4::South => Some(Direction4::North),
        }
    }

    fn all_directions() -> (dirs: Vec<Self>)
        ensures
            dirs@ == seq![Direction4::East, Direction4::South, Direction4::West, Direction4::North],
    {
        let mut dirs: Vec<Direction4> = Vec::new();
        dirs.push(Direction4::East);
        dirs.push(Direction4::South);
        dirs.push(Direction4::West);
        dirs.push(Direction4::North);
        assert(dirs@ =~= seq![
            Direction4::East,
            Direction4::South,
            Direction4::West,
            Direction4::North,
        ]);
        dirs
    }

    fn name(&self) -> (text: &'static str)
        ensures
            text@ == match *self {
                Direction4::East => "East"@,
                Direction4::South => "South"@,
                Direction4::West => "West"@,
                Direction4::North => "North"@,
            },
    {
        match self {
            Direction4::East => "East",
            Direction4::South => "South",
            Direction4::West => "West",
            Direction4::North => "North",
        }
    }
}

/// A tile: an entry of the catalog, with a selection weight and one edge
/// label for each direction. `edges[k]` faces the neighbour at position `k`
/// of a cell's neighbour list.
#[derive(Debug, Clone, PartialEq)]
pub struct Tile<EdgeData> {
    pub id: TileId,
    pub weight: i32,
    pub edges: Vec<EdgeData>,
}

impl<EdgeData> Tile<EdgeData> {
    pub fn new(id: TileId, weight: i32, edges: Vec<EdgeData>) -> (tile: Self)
        ensures
            tile.id == id,
            tile.weight == weight,
            tile.edges == edges,
    {
        Tile { id, weight, edges }
    }

    /// Whether both tiles have an edge in `direction` and the two labels are equal.
    pub fn is_compatible_with(&self, other: &Self, direction: usize) -> (compatible: bool) where
        EdgeData: PartialEq,

        ensures
            !(direction < self.edges.len() && direction < other.edges.len()) ==> !compatible,
            EdgeData::obeys_eq_spec() ==> compatible == self.compatible_in(other, direction),
    {
        if direction < self.edges.len() && direction < other.edges.len() {
            self.edges[direction] == other.edges[direction]
        } else {
            false
        }
    }

    /// What `is_compatible_with` decides, for an edge type whose `==` obeys its specification.
    pub open spec fn compatible_in(&self, other: &Self, direction: usize) -> bool where
        EdgeData: PartialEq,
     {
        &&& direction < self.edges.len()
        &&& direction < other.edges.len()
        &&& self.edges[direction as int].eq_spec(&other.edges[direction as int])
    }

    /// The edge label in `direction`, if the tile has one.
    pub fn get_edge(&self, direction: usize) -> (edge: Option<&EdgeData>)
        ensures
            direction < self.edges.len() ==> edge == Some(&self.edges[direction as int]),
            direction >= self.edges.len() ==> edge is None,
    {
        if direction < self.edges.len() {
            Some(&self.edges[direction])
        } else {
            None
        }
    }

    /// The edge label in `direction`, for writing; the rest of the tile stays as it is.
    pub fn get_edge_mut(&mut self, direction: usize) -> (edge: Option<&mut EdgeData>)
        ensures
            final(self).id == old(self).id,
            final(self).weight == old(self).weight,
            direction >= old(self).edges.len() ==> edge is None && final(self).edges@ == old(
                self,
            ).edges@,
            direction < old(self).edges.len() ==> edge is Some,
            edge matches Some(label) ==> {
                &&& direction < old(self).edges.len()
                &&& *label == old(self).edges[direction as int]
                &&& final(self).edges@ == old(self).edges@.update(
                    direction as int,
                    *final(label),
                )
            },
    {
        if direction < self.edges.len() {
            Some(&mut self.edges[direction])
        } else {
            None
        }
    }

    /// The number of edge labels.
    pub fn edge_count(&self) -> (count: usize)
        ensures
            count == self.edges.len(),
    {
        self.edges.len()
    }
}

/// Whether `grid[row][col]` is the first entry, row by row, that equals `target`.
pub open spec fn is_first_match<T: PartialEq>(
    grid: Seq<Vec<T>>,
    target: &T,
    row: int,
    col: int,
) -> bool {
    &&& 0 <= row < grid.len()
    &&& 0 <= col < grid[row].len()
    &&& grid[row][col].eq_spec(target)
    &&& forall|j: int| 0 <= j < col ==> !(#[trigger] grid[row][j]).eq_spec(target)
    &&& forall|i: int, j: int|
        0 <= i < row && 0 <= j < grid[i].len() ==> !(#[trigger] grid[i][j]).eq_spec(target)
}

/// Finds `target` in a vector of rows: the row and column of its first
/// occurrence, rows taken in order and each row from its start.
pub fn find_in_2d_vector<T: PartialEq>(vec_2d: &Vec<Vec<T>>, target: &T) -> (found: Option<
    (usize, usize),
>)
    ensures
        T::obeys_eq_spec() ==> match found {
            Some((row, col)) => is_first_match(vec_2d@, target, row as int, col as int),
            None => forall|i: int, j: int|
                0 <= i < vec_2d.len() && 0 <= j < vec_2d[i].len() ==> !(#[trigger] vec_2d[i][j]).eq_spec(
                    target,
                ),
        },
{
    let mut i: usize = 0;
    while i < vec_2d.len()
        invariant
            i <= vec_2d.len(),
            T::obeys_eq_spec() ==> forall|a: int, b: int|
                0 <= a < i && 0 <= b < vec_2d[a].len() ==> !(#[trigger] vec_2d[a][b]).eq_spec(target),
        decreases vec_2d.len() - i,
    {
        let row = &vec_2d[i];
        let mut j: usize = 0;
        while j < row.len()
            invariant
                i < vec_2d.len(),
                row == &vec_2d[i as int],
                j <= row.len(),
                T::obeys_eq_spec() ==> forall|b: int| 0 <= b < j ==> !(#[trigger] row[b]).eq_spec(target),
                T::obeys_eq_spec() ==> forall|a: int, b: int|
                    0 <= a < i && 0 <= b < vec_2d[a].len() ==> !(#[trigger] vec_2d[a][b]).eq_spec(
                        target,
                    ),
            decreases row.len() - j,
        {
            if row[j] == *target {
                return Some((i, j));
            }
            j += 1;
        }
        i += 1;
    }
    None
}

} // verus!

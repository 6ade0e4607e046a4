//! Wave function collapse over graph-shaped grids.
//!
//! A grid is a directed graph of cells in which the position of a neighbour
//! in a cell's neighbour list names a direction; a tile carries one edge
//! label per direction and a selection weight. The solver assigns one tile
//! to every cell so that neighbouring tiles agree, and repairs conflicts in
//! place, layer by layer, instead of unwinding the whole run.
//!
//! Every function in this crate is verified with Verus against the contract
//! written on it. The few places where the library calls into `petgraph`
//! and `rand` are marked as such.

pub mod collapse;
pub mod compatibility;
pub mod entropy;
pub mod grid_system;
pub mod propagation;
pub mod random;
pub mod repair;
pub mod sampling;
pub mod tile_set;
pub mod wfc_manager;
pub mod wfc_util;

pub use wfc_util::{
    find_in_2d_vector, Cell, CellId, Cells, Direction4, DirectionTrait, EdgeId, Edges,
    GraphEdge, GridError, Tile, TileId, Tiles,
};
pub use tile_set::{TileSet, TileSetVirtual};
pub use grid_system::{GridBuilder, GridSystem, WFCGraph};
pub use entropy::EntropyMeasure;
pub use wfc_manager::{
    CellState, CellWfcData, DefaultInitializer, StepResult, SystemSnapshot, WfcConfig, WfcError,
    WfcInitializer, WfcManager,
};

//! The tile catalog and the capability through which the solver asks about it.

use crate::wfc_util::{GridError, Tile, TileId};
use vstd::prelude::*;

verus! {

/// What the solver needs of a tile set: the catalog, and the rule that
/// decides whether a tile may stand next to what its neighbours may still be.
///
/// The methods carry no contract, so any implementation is admitted. What
/// the solver promises of its results is stated over the answers that an
/// implementation can give (see [`judge_may_answer`] and its companions).
pub trait TileSetVirtual<EdgeData> {
    /// Fills the catalog. Called once, when the solver is initialised.
    fn build_tile_set(&mut self) -> Result<(), GridError>;

    /// Whether `candidate` can stand in a cell whose neighbours can still be
    /// the given tiles: `neighbor_possibilities[k]` holds the tiles that the
    /// neighbour in direction `k` may be, and an empty set does not constrain.
    fn judge_possibility(&self, neighbor_possibilities: &[Vec<TileId>], candidate: TileId) -> bool;

    /// The tile with the given id, if the catalog has one.
    fn get_tile(&self, tile_id: TileId) -> Option<&Tile<EdgeData>>;

    /// The number of tiles in the catalog.
    fn get_tile_count(&self) -> usize;

    /// The ids of all tiles.
    fn get_all_tile_ids(&self) -> Vec<TileId>;
}

/// `answer` is something that `judge_possibility` can return for these neighbour sets and this candidate.
pub open spec fn judge_may_answer<EdgeData, T: TileSetVirtual<EdgeData>>(
    tile_set: &T,
    neighbor_possibilities: Seq<Seq<TileId>>,
    candidate: TileId,
    answer: bool,
) -> bool {
    exists|sets: &[Vec<TileId>]|
        sets.deep_view() == neighbor_possibilities && #[trigger] call_ensures(
            T::judge_possibility,
            (tile_set, sets, candidate),
            answer,
        )
}

/// `weight` is what `get_tile` can report for this id: the weight of the tile it returns, or
/// `None` where it returns no tile.
pub open spec fn weight_may_be<EdgeData, T: TileSetVirtual<EdgeData>>(
    tile_set: &T,
    tile_id: TileId,
    weight: Option<i32>,
) -> bool {
    exists|tile: Option<&Tile<EdgeData>>|
        #[trigger] call_ensures(T::get_tile, (tile_set, tile_id), tile) && weight == match tile {
            Some(t) => Some(t.weight),
            None => None,
        }
}

/// `ids` is a list that `get_all_tile_ids` can return.
pub open spec fn ids_may_be<EdgeData, T: TileSetVirtual<EdgeData>>(
    tile_set: &T,
    ids: Seq<TileId>,
) -> bool {
    exists|list: Vec<TileId>|
        list@ == ids && #[trigger] call_ensures(T::get_all_tile_ids, (tile_set,), list)
}

/// `count` is a number that `get_tile_count` can return.
pub open spec fn count_may_be<EdgeData, T: TileSetVirtual<EdgeData>>(
    tile_set: &T,
    count: usize,
) -> bool {
    call_ensures(T::get_tile_count, (tile_set,), count)
}

/// The tile set answers as a function does: to one question it has one answer.
/// This is what the solver asks of a tile set for its runs to be repeatable.
pub open spec fn answers_are_functions<EdgeData, T: TileSetVirtual<EdgeData>>(
    tile_set: &T,
) -> bool {
    &&& forall|sets: Seq<Seq<TileId>>, candidate: TileId|
        !(#[trigger] judge_may_answer(tile_set, sets, candidate, true) && judge_may_answer(
            tile_set,
            sets,
            candidate,
            false,
        ))
    &&& forall|tile_id: TileId, a: Option<i32>, b: Option<i32>|
        #[trigger] weight_may_be(tile_set, tile_id, a) && #[trigger] weight_may_be(
            tile_set,
            tile_id,
            b,
        ) ==> a == b
    &&& forall|a: Seq<TileId>, b: Seq<TileId>|
        #[trigger] ids_may_be(tile_set, a) && #[trigger] ids_may_be(tile_set, b) ==> a == b
    &&& forall|a: usize, b: usize|
        #[trigger] count_may_be(tile_set, a) && #[trigger] count_may_be(tile_set, b) ==> a == b
}

/// The rule of the tile set: whether it accepts `candidate` beside these neighbour sets.
pub open spec fn judge<EdgeData, T: TileSetVirtual<EdgeData>>(
    tile_set: &T,
    neighbor_possibilities: Seq<Seq<TileId>>,
    candidate: TileId,
) -> bool {
    judge_may_answer(tile_set, neighbor_possibilities, candidate, true)
}

/// The weight of a tile; 0 for an id that names no tile.
pub open spec fn weight_of<EdgeData, T: TileSetVirtual<EdgeData>>(
    tile_set: &T,
    tile_id: TileId,
) -> i32 {
    if weight_may_be(tile_set, tile_id, None) {
        0i32
    } else {
        choose|w: i32| weight_may_be(tile_set, tile_id, Some(w))
    }
}

/// The ids of the catalog, in the order in which the tile set lists them.
pub open spec fn catalog<EdgeData, T: TileSetVirtual<EdgeData>>(tile_set: &T) -> Seq<TileId> {
    choose|ids: Seq<TileId>| ids_may_be(tile_set, ids)
}

/// Asks the tile set whether it accepts `candidate` beside the given neighbour sets.
pub fn ask_judge<EdgeData, T: TileSetVirtual<EdgeData>>(
    tile_set: &T,
    neighbor_possibilities: &Vec<Vec<TileId>>,
    candidate: TileId,
) -> (answer: bool)
    ensures
        judge_may_answer(tile_set, neighbor_possibilities.deep_view(), candidate, answer),
        answers_are_functions(tile_set) ==> answer == judge(
            tile_set,
            neighbor_possibilities.deep_view(),
            candidate,
        ),
{
    let sets = neighbor_possibilities.as_slice();
    assert(sets.deep_view() == neighbor_possibilities.deep_view());
    tile_set.judge_possibility(sets, candidate)
}

/// Asks the tile set for the weight of a tile; 0 where it has no such tile.
pub fn ask_weight<EdgeData, T: TileSetVirtual<EdgeData>>(tile_set: &T, tile_id: TileId) -> (weight:
    i32)
    ensures
        weight_may_be(tile_set, tile_id, Some(weight)) || (weight == 0 && weight_may_be(
            tile_set,
            tile_id,
            None,
        )),
        answers_are_functions(tile_set) ==> weight == weight_of(tile_set, tile_id),
{
    match tile_set.get_tile(tile_id) {
        Some(tile) => {
            assert(weight_may_be(tile_set, tile_id, Some(tile.weight)));
            tile.weight
        },
        None => {
            assert(weight_may_be(tile_set, tile_id, None));
            0
        },
    }
}

/// Asks the tile set for the ids of its catalog.
pub fn ask_catalog<EdgeData, T: TileSetVirtual<EdgeData>>(tile_set: &T) -> (ids: Vec<TileId>)
    ensures
        ids_may_be(tile_set, ids@),
        answers_are_functions(tile_set) ==> ids@ == catalog(tile_set),
{
    let ids = tile_set.get_all_tile_ids();
    assert(ids_may_be(tile_set, ids@));
    ids
}

/// A catalog of tiles. The id of a tile is its position in the catalog.
#[derive(Debug, Clone)]
pub struct TileSet<EdgeData> {
    tiles: Vec<Tile<EdgeData>>,
}

impl<EdgeData> View for TileSet<EdgeData> {
    type V = Seq<Tile<EdgeData>>;

    closed spec fn view(&self) -> Seq<Tile<EdgeData>> {
        self.tiles@
    }
}

impl<EdgeData> TileSet<EdgeData> {
    /// Every tile carries its own position as its id.
    pub open spec fn well_formed(&self) -> bool {
        forall|i: int| 0 <= i < self@.len() ==> (#[trigger] self@[i]).id == i
    }

    /// An empty catalog.
    pub fn new() -> (set: Self)
        ensures
            set@ == Seq::<Tile<EdgeData>>::empty(),
            set.well_formed(),
    {
        TileSet { tiles: Vec::new() }
    }

    /// Appends a tile with the given edges and weight, and returns its id.
    pub fn add_tile(&mut self, edges: Vec<EdgeData>, weight: i32) -> (tile_id: TileId)
        ensures
            tile_id == old(self)@.len(),
            final(self)@ == old(self)@.push(Tile { id: tile_id, weight, edges }),
            old(self).well_formed() ==> final(self).well_formed(),
    {
        let tile_id = self.tiles.len();
        let tile = Tile::new(tile_id, weight, edges);
        self.tiles.push(tile);
        tile_id
    }

    /// All tiles, in id order.
    pub fn get_all_tiles(&self) -> (tiles: &[Tile<EdgeData>])
        ensures
            tiles@ == self@,
    {
        self.tiles.as_slice()
    }

    /// The ids of all tiles: `0, 1, ..` up to the number of tiles.
    pub fn get_all_tile_ids(&self) -> (ids: Vec<TileId>)
        ensures
            ids@ == Seq::new(self@.len(), |i: int| i as usize),
    {
        let mut ids: Vec<TileId> = Vec::new();
        let mut i: usize = 0;
        while i < self.tiles.len()
            invariant
                i <= self.tiles.len(),
                ids@ == Seq::new(i as nat, |k: int| k as usize),
            decreases self.tiles.len() - i,
        {
            ids.push(i);
            i += 1;
        }
        ids
    }

    /// The tile with the given id, if there is one.
    pub fn get_tile(&self, tile_id: TileId) -> (tile: Option<&Tile<EdgeData>>)
        ensures
            tile_id < self@.len() ==> tile == Some(&self@[tile_id as int]),
            tile_id >= self@.len() ==> tile is None,
    {
        if tile_id < self.tiles.len() {
            Some(&self.tiles[tile_id])
        } else {
            None
        }
    }

    /// The number of tiles.
    pub fn get_tile_count(&self) -> (count: usize)
        ensures
            count == self@.len(),
    {
        self.tiles.len()
    }

    /// Removes every tile.
    pub fn clear(&mut self)
        ensures
            final(self)@ == Seq::<Tile<EdgeData>>::empty(),
            final(self).well_formed(),
    {
        self.tiles.clear();
    }

    /// Whether the id names a tile of the catalog.
    pub fn contains_tile(&self, tile_id: TileId) -> (present: bool)
        ensures
            present == (tile_id < self@.len()),
    {
        tile_id < self.tiles.len()
    }

    /// Whether the catalog holds no tile.
    pub fn is_empty(&self) -> (empty: bool)
        ensures
            empty == (self@.len() == 0),
    {
        self.tiles.len() == 0
    }
}

impl<EdgeData> Default for TileSet<EdgeData> {
    fn default() -> (set: Self)
        ensures
            set@ == Seq::<Tile<EdgeData>>::empty(),
    {
        TileSet::new()
    }
}

} // verus!

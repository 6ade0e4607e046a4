use rlwfc::{GridError, Tile, TileId, TileSet, TileSetVirtual};

struct TestTileSet {
    tiles: TileSet<&'static str>,
}

impl TestTileSet {
    pub fn new() -> Self {
        Self { tiles: TileSet::new() }
    }
}

impl TileSetVirtual<&'static str> for TestTileSet {
    fn build_tile_set(&mut self) -> Result<(), GridError> {
        self.tiles.clear();
        self.tiles.add_tile(vec!["A", "A", "A", "A"], 10);
        self.tiles.add_tile(vec!["B", "B", "B", "B"], 10);
        self.tiles.add_tile(vec!["A", "B", "A", "B"], 5);
        Ok(())
    }

    fn judge_possibility(
        &self,
        _neighbor_possibilities: &[Vec<TileId>],
        candidate: TileId,
    ) -> bool {
        if self.tiles.get_tile(candidate).is_none() {
            return false;
        }
        true
    }

    fn get_tile(&self, tile_id: TileId) -> Option<&Tile<&'static str>> {
        self.tiles.get_tile(tile_id)
    }

    fn get_tile_count(&self) -> usize {
        self.tiles.get_tile_count()
    }

    fn get_all_tile_ids(&self) -> Vec<TileId> {
        self.tiles.get_all_tile_ids()
    }
}

#[test]
fn test_tile_set_creation() {
    let tile_set = TileSet::<&str>::new();
    assert_eq!(tile_set.get_tile_count(), 0);
    assert!(tile_set.is_empty());
}

#[test]
fn test_add_and_get_tiles() {
    let mut tile_set = TileSet::new();

    let tile_id1 = tile_set.add_tile(vec!["A", "B", "C", "D"], 10);
    let tile_id2 = tile_set.add_tile(vec!["B", "A", "D", "C"], 15);

    assert_eq!(tile_id1, 0);
    assert_eq!(tile_id2, 1);
    assert_eq!(tile_set.get_tile_count(), 2);

    let tile1 = tile_set.get_tile(tile_id1).unwrap();
    assert_eq!(tile1.weight, 10);
    assert_eq!(tile1.edges, vec!["A", "B", "C", "D"]);
}

#[test]
fn test_tile_set_virtual_implementation() {
    let mut test_tile_set = TestTileSet::new();

    test_tile_set.build_tile_set().unwrap();
    assert_eq!(test_tile_set.get_tile_count(), 3);

    let neighbor_possibilities = vec![vec![0, 1], vec![1, 2]];
    let is_possible = test_tile_set.judge_possibility(&neighbor_possibilities, 0);
    assert!(is_possible);

    let is_possible = test_tile_set.judge_possibility(&neighbor_possibilities, 10);
    assert!(!is_possible);
}

use rlwfc::sampling::{choose_tile_from_probabilities, pick_weighted};
use rlwfc::{CellState, CellWfcData, GridError, Tile, TileId, TileSet, TileSetVirtual, WfcError};

struct Weighted {
    tiles: TileSet<u8>,
}

impl Weighted {
    fn new(weights: &[i32]) -> Self {
        let mut tiles = TileSet::new();
        for &w in weights {
            tiles.add_tile(vec![], w);
        }
        Self { tiles }
    }
}

impl TileSetVirtual<u8> for Weighted {
    fn build_tile_set(&mut self) -> Result<(), GridError> {
        Ok(())
    }

    fn judge_possibility(&self, _sets: &[Vec<TileId>], _candidate: TileId) -> bool {
        true
    }

    fn get_tile(&self, tile_id: TileId) -> Option<&Tile<u8>> {
        self.tiles.get_tile(tile_id)
    }

    fn get_tile_count(&self) -> usize {
        self.tiles.get_tile_count()
    }

    fn get_all_tile_ids(&self) -> Vec<TileId> {
        self.tiles.get_all_tile_ids()
    }
}

fn cell(rand_num: i32, possibilities: Vec<TileId>) -> CellWfcData {
    CellWfcData { state: CellState::Uncollapsed, entropy: 0, rand_seed: 0, rand_num, possibilities }
}

#[test]
fn the_first_running_sum_above_the_reduced_number_picks() {
    let weights = vec![3, 1, 2];
    assert_eq!(pick_weighted(&weights, 0), 0);
    assert_eq!(pick_weighted(&weights, 2), 0);
    assert_eq!(pick_weighted(&weights, 3), 1);
    assert_eq!(pick_weighted(&weights, 4), 2);
    assert_eq!(pick_weighted(&weights, 5), 2);
    assert_eq!(pick_weighted(&weights, 6), 0);
    assert_eq!(pick_weighted(&weights, 604), 2);
    assert_eq!(pick_weighted(&weights, i32::MAX), 0);
}

#[test]
fn weights_that_sum_to_zero_pick_the_first() {
    assert_eq!(pick_weighted(&vec![0, 0, 0], 17), 0);
    assert_eq!(pick_weighted(&vec![5, -5], 17), 0);
    assert_eq!(pick_weighted(&vec![0, 4], 2), 1);
    assert_eq!(pick_weighted(&vec![i32::MAX, i32::MAX, i32::MAX], i32::MAX), 1);
    assert_eq!(pick_weighted(&vec![-1, -2], 2), 1);
}

#[test]
fn each_tile_is_picked_in_proportion_to_its_weight() {
    let weights = vec![2, 5, 1, 4];
    let total: i32 = weights.iter().sum();
    let mut picked = vec![0; weights.len()];
    for rand_num in 0..total * 50 {
        picked[pick_weighted(&weights, rand_num)] += 1;
    }
    assert_eq!(picked, vec![100, 250, 50, 200]);

    let pair = vec![3, 7];
    let of_a = (0..1000).filter(|&r| pick_weighted(&pair, r) == 0).count();
    assert_eq!(of_a, 300);
}

#[test]
fn the_tile_of_a_cell_depends_on_its_number_its_possibilities_and_the_weights() {
    let tiles = Weighted::new(&[1, 1, 2, 4]);
    assert_eq!(choose_tile_from_probabilities(&tiles, &cell(0, vec![1, 3])), Ok(1));
    assert_eq!(choose_tile_from_probabilities(&tiles, &cell(1, vec![1, 3])), Ok(3));
    assert_eq!(choose_tile_from_probabilities(&tiles, &cell(4, vec![1, 3])), Ok(3));
    assert_eq!(choose_tile_from_probabilities(&tiles, &cell(5, vec![1, 3])), Ok(1));
    assert_eq!(choose_tile_from_probabilities(&tiles, &cell(1, vec![3, 1])), Ok(3));
    assert_eq!(choose_tile_from_probabilities(&tiles, &cell(4, vec![3, 1])), Ok(1));
    assert_eq!(choose_tile_from_probabilities(&tiles, &cell(7, vec![0, 1, 2, 3])), Ok(3));
    assert_eq!(choose_tile_from_probabilities(&tiles, &cell(3, vec![0, 1, 2, 3])), Ok(2));
    assert_eq!(choose_tile_from_probabilities(&tiles, &cell(3, vec![2])), Ok(2));
    assert_eq!(choose_tile_from_probabilities(&tiles, &cell(3, vec![9, 2])), Ok(2));
    assert_eq!(choose_tile_from_probabilities(&tiles, &cell(3, vec![9, 8])), Ok(9));
    assert_eq!(
        choose_tile_from_probabilities(&tiles, &cell(3, vec![])),
        Err(WfcError::InvalidTileChoice)
    );
}

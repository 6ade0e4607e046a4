use rlwfc::{find_in_2d_vector, Cell, Direction4, DirectionTrait, Tile};

#[test]
fn test_cell_creation() {
    let cell1 = Cell::new();
    let cell2 = Cell::with_id(42);
    let cell3 = Cell::with_name("test_cell".to_string());

    assert_eq!(cell1.id, None);
    assert_eq!(cell2.id, Some(42));
    assert_eq!(cell3.name, Some("test_cell".to_string()));
}

#[test]
fn test_direction4() {
    assert_eq!(Direction4::East.opposite(), Some(Direction4::West));
    assert_eq!(Direction4::North.opposite(), Some(Direction4::South));
    assert_eq!(Direction4::East.to_neighbor_index(), Some(1));
    assert_eq!(Direction4::South.to_neighbor_index(), Some(0));
    assert_eq!(Direction4::West.to_neighbor_index(), None);
}

#[test]
fn test_tile() {
    let tile = Tile::new(0, 10, vec!["A", "B", "C", "D"]);
    assert_eq!(tile.id, 0);
    assert_eq!(tile.weight, 10);
    assert_eq!(tile.edge_count(), 4);
    assert_eq!(tile.get_edge(0), Some(&"A"));
}

#[test]
fn test_find_in_2d_vector() {
    let vec_2d = vec![vec![1, 2, 3], vec![4, 5, 6], vec![7, 8, 9]];

    assert_eq!(find_in_2d_vector(&vec_2d, &5), Some((1, 1)));
    assert_eq!(find_in_2d_vector(&vec_2d, &1), Some((0, 0)));
    assert_eq!(find_in_2d_vector(&vec_2d, &10), None);
}

use hexlab::{EdgeDirection, Hex, Maze, MazeError, Tile, TilePosition, WallStorage, Walls};

#[test]
fn hex_maze_creation_and_basic_operations() {
    let mut maze = Maze::new();
    assert!(maze.is_empty());

    let center = Hex::zero();
    maze.insert(center);
    assert_eq!(maze.len(), 1);
    assert!(!maze.is_empty());

    let tile = maze.get(&center);
    assert!(tile.is_some());
    assert_eq!(tile.unwrap().pos(), center);
}

#[test]
fn hex_maze_wall_operations() {
    let mut maze = Maze::new();
    let center = Hex::zero();
    maze.insert(center);

    for direction in EdgeDirection::ALL_DIRECTIONS {
        let _ = maze.add_tile_wall(&center, direction);
    }

    let walls = maze.get_walls(&center).unwrap();
    assert_eq!(walls.count(), 6);

    for direction in EdgeDirection::ALL_DIRECTIONS {
        let _ = maze.remove_tile_wall(&center, direction);
    }

    let walls = maze.get_walls(&center).unwrap();
    assert_eq!(walls.count(), 0);
}

#[test]
fn hex_maze_multiple_tiles() {
    let mut maze = Maze::new();
    let tiles = [
        Hex::zero(),
        Hex::new(1, -1),
        Hex::new(0, 1),
        Hex::new(-1, 1),
    ];

    for &tile in &tiles {
        maze.insert(tile);
    }

    assert_eq!(maze.len(), tiles.len());

    for &tile in &tiles {
        assert!(maze.get(&tile).is_some());
    }
}

#[test]
fn hex_maze_edge_cases() {
    let mut maze = Maze::new();
    let non_existent = Hex::new(10, 10);

    let _ = maze.add_tile_wall(&non_existent, EdgeDirection::FLAT_NORTH);
    let _ = maze.remove_tile_wall(&non_existent, EdgeDirection::FLAT_NORTH);

    assert!(maze.get(&non_existent).is_none());
    assert!(maze.get_walls(&non_existent).is_none());
}

#[test]
fn new_maze() {
    let maze = Maze::default();
    assert!(maze.is_empty(), "New maze should be empty");
    assert_eq!(maze.len(), 0, "New maze should have zero tiles");
}

#[test]
fn add_tile() {
    let mut maze = Maze::default();
    let coords = [Hex::zero(), Hex::new(1, -1), Hex::new(-1, 1)];

    for &coord in &coords {
        maze.insert(coord);
        assert!(
            maze.get(&coord).is_some(),
            "Tile should exist after adding"
        );
    }

    assert_eq!(
        maze.len(),
        coords.len(),
        "Maze should contain all added tiles"
    );
}

#[test]
fn wall_operations() {
    let mut maze = Maze::default();
    let coord = Hex::zero();
    maze.insert(coord);

    let directions = [
        EdgeDirection::FLAT_TOP,
        EdgeDirection::FLAT_BOTTOM,
        EdgeDirection::POINTY_TOP_RIGHT,
    ];

    for &direction in &directions {
        assert_eq!(maze.add_tile_wall(&coord, direction), Ok(true));
        assert!(
            maze.get_walls(&coord).unwrap().contains(direction),
            "Wall should exist after adding"
        );
    }
}

#[test]
fn tile_iteration() {
    let mut maze = Maze::default();
    let coords = [Hex::zero(), Hex::new(1, 0), Hex::new(0, 1)];

    for &coord in &coords {
        maze.insert(coord);
    }

    let collected = maze.tiles();
    assert_eq!(
        collected.len(),
        coords.len(),
        "Iterator should yield all tiles"
    );
}

#[test]
fn maze_clone() {
    let mut maze = Maze::default();
    let coord = Hex::zero();
    maze.insert(coord);
    assert_eq!(maze.add_tile_wall(&coord, EdgeDirection::FLAT_TOP), Ok(true));

    let cloned_maze = maze.clone();
    assert_eq!(
        maze.len(),
        cloned_maze.len(),
        "Cloned maze should have same size"
    );
    assert!(
        cloned_maze
            .get_walls(&coord)
            .unwrap()
            .contains(EdgeDirection::FLAT_TOP),
        "Cloned maze should preserve wall state"
    );
}

#[test]
fn empty_tile_operations() {
    let mut maze = Maze::default();
    let coord = Hex::zero();

    assert!(
        maze.get(&coord).is_none(),
        "Should return None for non-existent tile"
    );
    assert!(
        maze.get_walls(&coord).is_none(),
        "Should return None for non-existent walls"
    );

    assert_eq!(
        maze.add_tile_wall(&coord, EdgeDirection::FLAT_TOP),
        Err(MazeError::InvalidCoordinate(coord))
    );
}

#[test]
fn hex_maze_maze_boundaries() {
    let mut maze = Maze::default();
    let extreme_coords = [
        Hex::new(i32::MAX, i32::MIN),
        Hex::new(i32::MIN, i32::MAX),
        Hex::new(0, i32::MAX),
        Hex::new(0, i32::MIN),
        Hex::new(i32::MAX, 0),
        Hex::new(i32::MIN, 0),
    ];

    for &coord in &extreme_coords {
        maze.insert(coord);
        assert!(
            maze.get(&coord).is_some(),
            "Should handle extreme coordinates"
        );
    }
    assert_eq!(maze.len(), extreme_coords.len());
}

#[test]
fn iterator_consistency() {
    let mut maze = Maze::default();
    let coords = [Hex::zero(), Hex::new(1, -1), Hex::new(-1, 1)];

    for &coord in &coords {
        maze.insert(coord);
    }

    let iter_coords = maze.keys();
    assert_eq!(
        iter_coords.len(),
        coords.len(),
        "Iterator should yield all coordinates"
    );

    for coord in coords {
        assert!(
            iter_coords.contains(&coord),
            "Iterator should contain all added coordinates"
        );
    }
}

#[test]
fn empty_maze() {
    let maze = Maze::default();
    assert!(maze.is_empty(), "New maze should be empty");
}

#[test]
fn insert_replaces_and_returns_old_tile() {
    let mut maze = Maze::new();
    let coord = Hex::zero();

    assert_eq!(maze.insert(coord), None);
    assert_eq!(maze.insert(coord), Some(Tile::new(coord)));

    assert_eq!(
        maze.remove_tile_wall(&coord, EdgeDirection::FLAT_NORTH),
        Ok(true)
    );
    let evicted = maze.insert(coord).unwrap();
    assert_eq!(evicted.pos(), coord);
    assert_eq!(evicted.walls().as_bits(), 0b101111);
    assert_eq!(maze.get_walls(&coord), Some(&Walls::new()));
    assert_eq!(maze.len(), 1);
}

#[test]
fn wall_edits_return_previous_state() {
    let mut maze = Maze::new();
    let coord = Hex::new(2, -1);
    maze.insert(coord);

    assert_eq!(
        maze.remove_tile_wall(&coord, EdgeDirection::FLAT_SOUTH),
        Ok(true)
    );
    assert_eq!(
        maze.remove_tile_wall(&coord, EdgeDirection::FLAT_SOUTH),
        Ok(false)
    );
    assert_eq!(maze.get_walls(&coord).unwrap().as_bits(), 0b111101);
    assert_eq!(
        maze.add_tile_wall(&coord, EdgeDirection::FLAT_SOUTH),
        Ok(false)
    );
    assert_eq!(
        maze.add_tile_wall(&coord, EdgeDirection::FLAT_SOUTH),
        Ok(true)
    );
    assert_eq!(maze.get_walls(&coord).unwrap().as_bits(), 0b111111);
}

#[test]
fn wall_edits_on_missing_tile_are_errors() {
    let mut maze = Maze::new();
    maze.insert(Hex::zero());
    let invalid_coord = Hex::new(1, 1);
    assert_eq!(
        maze.add_tile_wall(&invalid_coord, EdgeDirection::FLAT_NORTH),
        Err(MazeError::InvalidCoordinate(invalid_coord))
    );
    assert_eq!(
        maze.remove_tile_wall(&invalid_coord, EdgeDirection::FLAT_NORTH),
        Err(MazeError::InvalidCoordinate(invalid_coord))
    );
    assert_eq!(maze.len(), 1);
    assert!(maze.get_walls(&Hex::zero()).unwrap().is_enclosed());
}

#[test]
fn mazes_compare_by_tiles_and_walls() {
    let mut a = Maze::new();
    let mut b = Maze::new();
    assert!(a == b);
    a.insert(Hex::new(0, 0));
    assert!(a != b);
    b.insert(Hex::new(0, 0));
    assert!(a == b);
    a.insert(Hex::new(1, 0));
    b.insert(Hex::new(0, 1));
    assert!(a != b);
    b.insert(Hex::new(1, 0));
    a.insert(Hex::new(0, 1));
    assert!(a == b);
    assert_eq!(
        a.remove_tile_wall(&Hex::new(1, 0), EdgeDirection::FLAT_NORTH),
        Ok(true)
    );
    assert!(a != b);
    assert!(a.clone() == a);
}

#[test]
fn tiles_and_keys_agree() {
    let mut maze = Maze::new();
    for q in -2..=2 {
        for r in -2..=2 {
            maze.insert(Hex::new(q, r));
        }
    }
    assert_eq!(
        maze.remove_tile_wall(&Hex::new(1, 1), EdgeDirection::FLAT_SOUTH_WEST),
        Ok(true)
    );
    let keys = maze.keys();
    let tiles = maze.tiles();
    assert_eq!(keys.len(), 25);
    assert_eq!(tiles.len(), 25);
    for tile in &tiles {
        assert!(keys.contains(&tile.pos()));
        assert_eq!(maze.get(&tile.pos()), Some(tile));
    }
    for key in &keys {
        assert_eq!(tiles.iter().filter(|t| t.pos() == *key).count(), 1);
        assert!(maze.contains(key));
    }
    assert!(!maze.contains(&Hex::new(3, 0)));
}

#[test]
fn insert_with_tile_stores_the_walls_at_the_position() {
    let mut maze = Maze::new();
    let coord = Hex::zero();
    let tile1 = Tile::new(coord);
    let mut tile2 = Tile::new(Hex::new(1, 1));
    tile2.walls_mut().remove(EdgeDirection::FLAT_NORTH);

    assert_eq!(maze.insert_with_tile(coord, tile1), None);
    assert_eq!(maze.insert_with_tile(coord, tile2), Some(tile1));
    assert_eq!(maze.len(), 1);
    let stored = maze.get(&coord).unwrap();
    assert_eq!(stored.pos(), coord);
    assert_eq!(stored.walls().as_bits(), 0b101111);
    assert!(maze.get(&Hex::new(1, 1)).is_none());
}

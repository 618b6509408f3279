use hexlab::{
    create_hex_maze, EdgeDirection, GeneratorType, Hex, Maze, MazeBuilder, MazeBuilderError,
};

fn maze_size(radius: u16, expected_size: usize) {
    let maze = MazeBuilder::new().with_radius(radius).build();
    assert!(maze.is_ok());
    assert_eq!(maze.unwrap().len(), expected_size);
}

#[test]
fn maze_size_radius_1() {
    maze_size(1, 7);
}

#[test]
fn maze_size_radius_2() {
    maze_size(2, 19);
}

#[test]
fn maze_size_radius_3() {
    maze_size(3, 37);
}

#[test]
fn maze_size_radius_4() {
    maze_size(4, 61);
}

#[test]
fn maze_size_radius_5() {
    maze_size(5, 91);
}

#[test]
fn builder_without_radius() {
    let result = MazeBuilder::new().build();
    assert!(result.is_err());
    assert!(matches!(result, Err(MazeBuilderError::NoRadius)));
}

fn valid_start_position(start_pos: Hex) {
    let maze = MazeBuilder::new()
        .with_radius(3)
        .with_start_position(start_pos)
        .build();
    assert!(maze.is_ok());
    assert!(maze.unwrap().get(&start_pos).is_some());
}

#[test]
fn valid_start_position_origin() {
    valid_start_position(Hex::zero());
}

#[test]
fn valid_start_position_north_east() {
    valid_start_position(Hex::new(1, -1));
}

#[test]
fn valid_start_position_west() {
    valid_start_position(Hex::new(-2, 1));
}

#[test]
fn invalid_start_position() {
    let maze = MazeBuilder::new()
        .with_radius(3)
        .with_start_position(Hex::new(10, 10))
        .build();

    assert!(maze.is_err());
    assert!(matches!(
        maze,
        Err(MazeBuilderError::InvalidStartPosition(_))
    ));
}

#[test]
fn invalid_start_position_is_reported() {
    let maze = MazeBuilder::new()
        .with_radius(3)
        .with_start_position(Hex::new(2, 2))
        .with_seed(1)
        .build();
    assert_eq!(
        maze.err(),
        Some(MazeBuilderError::InvalidStartPosition(Hex::new(2, 2)))
    );
    let maze = MazeBuilder::new()
        .with_start_position(Hex::new(2, 2))
        .build();
    assert_eq!(maze.err(), Some(MazeBuilderError::NoRadius));
}

#[test]
fn maze_with_seed() {
    let maze1 = MazeBuilder::new()
        .with_radius(3)
        .with_seed(12345)
        .build()
        .unwrap();
    let maze2 = MazeBuilder::new()
        .with_radius(3)
        .with_seed(12345)
        .build()
        .unwrap();

    assert_eq!(maze1, maze2, "Mazes with the same seed should be identical");
}

#[test]
fn different_seeds_produce_different_mazes() {
    let maze1 = MazeBuilder::new()
        .with_radius(3)
        .with_seed(12345)
        .build()
        .unwrap();
    let maze2 = MazeBuilder::new()
        .with_radius(3)
        .with_seed(54321)
        .build()
        .unwrap();

    assert_ne!(
        maze1, maze2,
        "Mazes with different seeds should be different"
    );
}

fn count_accessible_neighbors(maze: &Maze, pos: Hex) -> usize {
    EdgeDirection::ALL_DIRECTIONS
        .iter()
        .filter(|&&dir| {
            let neighbor = pos.neighbor(dir).unwrap();
            if let Some(walls) = maze.get_walls(&pos) {
                !walls.contains(dir) && maze.get(&neighbor).is_some()
            } else {
                false
            }
        })
        .count()
}

#[test]
fn maze_connectivity() {
    let maze = MazeBuilder::new().with_radius(3).build().unwrap();

    for pos in maze.keys() {
        let accessible_neighbors = count_accessible_neighbors(&maze, pos);
        assert!(
            accessible_neighbors > 0,
            "Tile at {:?} has no accessible neighbors",
            pos
        );
    }
}

#[test]
fn generator_type() {
    let maze = MazeBuilder::new()
        .with_radius(3)
        .with_generator(GeneratorType::RecursiveBacktracking)
        .build()
        .unwrap();
    assert!(maze.len() > 0);
}

#[test]
fn builder_maze_boundaries() {
    let radius: i32 = 3;
    let maze = MazeBuilder::new()
        .with_radius(radius as u16)
        .build()
        .unwrap();

    for q in -radius..=radius {
        for r in -radius..=radius {
            let pos = Hex::new(q, r);
            if q.abs() + r.abs() <= radius {
                assert!(
                    maze.get(&pos).is_some(),
                    "Expected tile at {:?} to exist",
                    pos
                );
            }
        }
    }
}

#[test]
fn generate_maze_with_different_types() {
    let maze = MazeBuilder::new()
        .with_radius(3)
        .with_generator(GeneratorType::RecursiveBacktracking)
        .build()
        .unwrap();

    assert!(maze.len() > 0);
}

#[test]
fn maze_builder_new() {
    let builder = MazeBuilder::new();
    assert_eq!(builder.radius(), None);
    assert_eq!(builder.seed(), None);
    assert_eq!(builder.generator_type(), GeneratorType::default());
    assert_eq!(builder.start_position(), None);
}

#[test]
fn maze_builder_keeps_what_was_set() {
    let builder = MazeBuilder::default()
        .with_radius(4)
        .with_seed(9)
        .with_generator(GeneratorType::RecursiveBacktracking)
        .with_start_position(Hex::new(1, 2));
    assert_eq!(builder.radius(), Some(4));
    assert_eq!(builder.seed(), Some(9));
    assert_eq!(
        builder.generator_type(),
        GeneratorType::RecursiveBacktracking
    );
    assert_eq!(builder.start_position(), Some(Hex::new(1, 2)));
}

fn create_hex_maze_various_radii(radius: u16, expected_size: usize) {
    let maze = create_hex_maze(radius);
    assert_eq!(maze.len(), expected_size);
}

#[test]
fn create_hex_maze_radius_0() {
    create_hex_maze_various_radii(0, 1);
}

#[test]
fn create_hex_maze_radius_1() {
    create_hex_maze_various_radii(1, 7);
}

#[test]
fn create_hex_maze_radius_2() {
    create_hex_maze_various_radii(2, 19);
}

#[test]
fn create_hex_maze_radius_3() {
    create_hex_maze_various_radii(3, 37);
}

#[test]
fn create_hex_maze_radius_10() {
    create_hex_maze_various_radii(10, 331);
}

#[test]
fn create_hex_maze_radius_100() {
    create_hex_maze_various_radii(100, 30301);
}

#[test]
fn create_hex_maze_large_radius() {
    let large_radius = 1000;
    let maze = create_hex_maze(large_radius);
    assert!(maze.len() > 0);

    let expected_size = 3 * (large_radius as usize).pow(2) + 3 * large_radius as usize + 1;
    assert_eq!(maze.len(), expected_size);
}

#[test]
fn create_hex_maze_tile_positions() {
    let maze = create_hex_maze(2);
    let expected_positions = [
        Hex::new(0, 0),
        Hex::new(1, -1),
        Hex::new(1, 0),
        Hex::new(0, 1),
        Hex::new(-1, 1),
        Hex::new(-1, 0),
        Hex::new(0, -1),
        Hex::new(2, -2),
        Hex::new(2, -1),
        Hex::new(2, 0),
        Hex::new(1, 1),
        Hex::new(0, 2),
        Hex::new(-1, 2),
        Hex::new(-2, 2),
        Hex::new(-2, 1),
        Hex::new(-2, 0),
        Hex::new(-1, -1),
        Hex::new(0, -2),
        Hex::new(1, -2),
    ];
    for pos in expected_positions.iter() {
        assert!(maze.get(pos).is_some(), "Expected tile at {:?}", pos);
    }
}

#[test]
fn create_hex_maze_is_fully_walled() {
    let maze = create_hex_maze(5);
    assert_eq!(maze.len(), 91);
    for tile in maze.keys() {
        assert_eq!(maze.get_walls(&tile).unwrap().count(), 6);
        assert!(tile.x.abs() <= 5 && tile.y.abs() <= 5 && (tile.x + tile.y).abs() <= 5);
    }
    assert!(maze.get(&Hex::new(3, 3)).is_none());
    assert!(maze.get(&Hex::new(6, 0)).is_none());
    assert!(maze.get(&Hex::new(5, -5)).is_some());
}

#[test]
fn radius_zero_builds_one_enclosed_tile() {
    let maze = MazeBuilder::new().with_radius(0).with_seed(3).build().unwrap();
    assert_eq!(maze.len(), 1);
    assert!(maze.get_walls(&Hex::zero()).unwrap().is_enclosed());
}

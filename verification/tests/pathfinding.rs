use hexlab::{create_hex_maze, EdgeDirection, Hex, Maze, MazeBuilder};

#[test]
fn basic_path() {
    let maze = MazeBuilder::new()
        .with_seed(12345)
        .with_radius(5)
        .build()
        .unwrap();

    let start = Hex::new(0, 0);
    let goal = Hex::new(2, 0);

    assert_eq!(
        maze.find_path(start, goal),
        Some(vec![
            start,
            Hex::new(1, 0),
            Hex::new(1, 1),
            Hex::new(2, 1),
            goal
        ])
    );
}

#[test]
fn path_with_walls() {
    let mut maze = MazeBuilder::new()
        .with_seed(12345)
        .with_radius(5)
        .build()
        .unwrap();
    let start = Hex::new(0, 0);
    let goal = Hex::new(2, 0);

    assert!(maze.add_tile_wall(&start, EdgeDirection::FLAT_SOUTH).is_ok());

    let path = maze.find_path(start, goal);
    if let Some(path) = path {
        assert!(path.len() > 3);
        assert_eq!(path.first(), Some(&start));
        assert_eq!(path.last(), Some(&goal));
    }
}

#[test]
fn path_to_self() {
    let maze = MazeBuilder::new()
        .with_seed(12345)
        .with_radius(5)
        .build()
        .unwrap();
    let pos = Hex::new(0, 0);

    assert_eq!(maze.find_path(pos, pos), Some(vec![pos]));
}

#[test]
fn no_path_exists() {
    let mut maze = MazeBuilder::new()
        .with_seed(12345)
        .with_radius(5)
        .build()
        .unwrap();
    let start = Hex::new(0, 0);
    let goal = Hex::new(2, 0);

    for dir in EdgeDirection::ALL_DIRECTIONS {
        assert!(maze.add_tile_wall(&start, dir).is_ok());
    }

    assert!(maze.find_path(start, goal).is_none());
}

#[test]
fn path_in_larger_maze() {
    let maze = MazeBuilder::new()
        .with_seed(12345)
        .with_radius(10)
        .build()
        .unwrap();
    let start = Hex::new(-5, -5);
    let goal = Hex::new(5, 5);

    let path = maze.find_path(start, goal);
    assert!(path.is_some());
    let path = path.unwrap();

    assert_eq!(path.first(), Some(&start));
    assert_eq!(path.last(), Some(&goal));

    for window in path.windows(2) {
        let current = window[0];
        let next = window[1];
        assert!(EdgeDirection::ALL_DIRECTIONS
            .iter()
            .any(|&dir| current.neighbor(dir) == Some(next)));
    }
}

fn open_field(radius: u16) -> Maze {
    let mut maze = create_hex_maze(radius);
    for pos in maze.keys() {
        for dir in EdgeDirection::ALL_DIRECTIONS {
            assert_eq!(maze.remove_tile_wall(&pos, dir), Ok(true));
        }
    }
    maze
}

#[test]
fn path_across_open_field_is_as_long_as_the_distance() {
    let maze = open_field(6);
    let ends = [
        (Hex::new(0, 0), Hex::new(6, -6)),
        (Hex::new(-6, 0), Hex::new(6, 0)),
        (Hex::new(-3, 5), Hex::new(4, -6)),
        (Hex::new(2, 2), Hex::new(-2, -2)),
    ];
    for (from, to) in ends {
        let path = maze.find_path(from, to).unwrap();
        assert_eq!(path.len() as u64, from.distance_to(to) + 1);
        assert_eq!(path.first(), Some(&from));
        assert_eq!(path.last(), Some(&to));
        for window in path.windows(2) {
            assert_eq!(window[0].distance_to(window[1]), 1);
        }
    }
    assert_eq!(Hex::new(-6, 0).distance_to(Hex::new(6, 0)), 12);
    assert_eq!(Hex::new(-3, 5).distance_to(Hex::new(4, -6)), 11);
}

#[test]
fn path_takes_the_shorter_way_round() {
    // A ring of six tiles around a missing centre, open all round. One end
    // is two steps from the other on one side and four on the other.
    let ring = [
        Hex::new(1, 0),
        Hex::new(0, 1),
        Hex::new(-1, 1),
        Hex::new(-1, 0),
        Hex::new(0, -1),
        Hex::new(1, -1),
    ];
    let mut maze = Maze::new();
    for pos in ring {
        maze.insert(pos);
    }
    for pos in ring {
        for dir in EdgeDirection::ALL_DIRECTIONS {
            assert_eq!(maze.remove_tile_wall(&pos, dir), Ok(true));
        }
    }
    assert_eq!(
        maze.find_path(Hex::new(1, 0), Hex::new(-1, 1)),
        Some(vec![Hex::new(1, 0), Hex::new(0, 1), Hex::new(-1, 1)])
    );
    // With the short side walled off from the start, the long side is left.
    assert_eq!(
        maze.add_tile_wall(&Hex::new(1, 0), EdgeDirection::FLAT_SOUTH_WEST),
        Ok(false)
    );
    assert_eq!(
        maze.find_path(Hex::new(1, 0), Hex::new(-1, 1)),
        Some(vec![
            Hex::new(1, 0),
            Hex::new(1, -1),
            Hex::new(0, -1),
            Hex::new(-1, 0),
            Hex::new(-1, 1)
        ])
    );
    // The wall stands on one side only: the way back is still the short one.
    assert_eq!(
        maze.find_path(Hex::new(-1, 1), Hex::new(1, 0)),
        Some(vec![Hex::new(-1, 1), Hex::new(0, 1), Hex::new(1, 0)])
    );
}

#[test]
fn path_to_or_from_a_missing_tile() {
    let maze = open_field(2);
    let outside = Hex::new(9, 9);
    assert_eq!(maze.find_path(Hex::zero(), outside), None);
    assert_eq!(maze.find_path(outside, Hex::zero()), None);
    assert_eq!(maze.find_path(outside, outside), Some(vec![outside]));
    assert_eq!(Maze::new().find_path(Hex::zero(), Hex::new(1, 0)), None);
}

#[test]
fn path_from_every_tile_to_itself() {
    let maze = MazeBuilder::new().with_radius(3).with_seed(7).build().unwrap();
    for pos in maze.keys() {
        assert_eq!(maze.find_path(pos, pos), Some(vec![pos]));
    }
}

#[test]
fn enclosed_start_reaches_nothing() {
    let mut maze = MazeBuilder::new().with_radius(3).with_seed(7).build().unwrap();
    let start = Hex::new(1, 1);
    for dir in EdgeDirection::ALL_DIRECTIONS {
        let _ = maze.add_tile_wall(&start, dir);
    }
    assert!(maze.get_walls(&start).unwrap().is_enclosed());
    for other in maze.keys() {
        if other != start {
            assert_eq!(maze.find_path(start, other), None);
        }
    }
}

#[test]
fn repeated_queries_give_the_same_path() {
    let maze = open_field(4);
    let first = maze.find_path(Hex::new(-4, 2), Hex::new(3, -1));
    for _ in 0..5 {
        assert_eq!(maze.find_path(Hex::new(-4, 2), Hex::new(3, -1)), first);
    }
}

#[test]
fn path_at_the_edge_of_the_coordinates() {
    let mut maze = Maze::new();
    let corner = Hex::new(i32::MAX, i32::MIN);
    let next = Hex::new(i32::MAX - 1, i32::MIN);
    maze.insert(corner);
    maze.insert(next);
    assert_eq!(maze.find_path(corner, next), None);
    assert_eq!(
        maze.remove_tile_wall(&corner, EdgeDirection::FLAT_NORTH_WEST),
        Ok(true)
    );
    assert_eq!(maze.find_path(corner, next), Some(vec![corner, next]));
    assert_eq!(maze.find_path(next, corner), None);
    assert_eq!(corner.neighbor(EdgeDirection::FLAT_SOUTH_EAST), None);
    assert_eq!(corner.neighbor(EdgeDirection::FLAT_NORTH), None);
}

#[test]
fn ties_go_to_the_entry_that_waited_longest() {
    let maze = open_field(3);
    // Two walks of two steps lead from the origin to (2, -1): over (1, 0)
    // and over (1, -1). Both neighbours come onto the frontier with the
    // same score when the origin is expanded, (1, 0) first, so the walk
    // over it is the one that is recorded.
    assert_eq!(
        maze.find_path(Hex::new(0, 0), Hex::new(2, -1)),
        Some(vec![Hex::new(0, 0), Hex::new(1, 0), Hex::new(2, -1)])
    );
    assert_eq!(
        maze.find_path(Hex::new(-2, 0), Hex::new(1, 1)),
        Some(vec![
            Hex::new(-2, 0),
            Hex::new(-1, 0),
            Hex::new(0, 0),
            Hex::new(1, 0),
            Hex::new(1, 1)
        ])
    );
    assert_eq!(
        maze.find_path(Hex::new(3, -3), Hex::new(-3, 3)),
        Some(vec![
            Hex::new(3, -3),
            Hex::new(2, -2),
            Hex::new(1, -1),
            Hex::new(0, 0),
            Hex::new(-1, 1),
            Hex::new(-2, 2),
            Hex::new(-3, 3)
        ])
    );
}

use hexlab::{
    carve, create_hex_maze, generate_backtracking, EdgeDirection, GeneratorType, Hex, Maze,
};
use std::collections::HashSet;

fn length(hex: Hex) -> i32 {
    hex.x.abs().max(hex.y.abs()).max((hex.x + hex.y).abs())
}

fn generator_type(generator: GeneratorType, start_pos: Option<Hex>, seed: Option<u64>) {
    let mut maze = Maze::new();
    for q in -3..=3 {
        for r in -3..=3 {
            let hex = Hex::new(q, r);
            if length(hex) <= 3 {
                maze.insert(hex);
            }
        }
    }
    let initial_size = maze.len();

    generator.generate(&mut maze, start_pos, seed);

    assert_eq!(maze.len(), initial_size, "Maze size should not change");

    let start = start_pos.unwrap_or(Hex::zero());
    let mut to_visit = vec![start];
    let mut visited = HashSet::new();
    while let Some(current) = to_visit.pop() {
        if !visited.insert(current) {
            continue;
        }
        for dir in EdgeDirection::ALL_DIRECTIONS {
            let neighbor = current.neighbor(dir).unwrap();
            if let Some(walls) = maze.get_walls(&current) {
                if !walls.contains(dir) && maze.get(&neighbor).is_some() {
                    to_visit.push(neighbor);
                }
            }
        }
    }
    assert_eq!(visited.len(), maze.len(), "All tiles should be connected");

    for pos in maze.keys() {
        let walls = maze.get_walls(&pos).unwrap();
        assert!(
            walls.count() < 6,
            "Tile at {:?} should have at least one open wall",
            pos
        );
    }
}

#[test]
fn generator_type_without_start_or_seed() {
    generator_type(GeneratorType::RecursiveBacktracking, None, None);
}

#[test]
fn generator_type_with_start() {
    generator_type(
        GeneratorType::RecursiveBacktracking,
        Some(Hex::new(1, -1)),
        None,
    );
}

#[test]
fn generator_type_with_seed() {
    generator_type(GeneratorType::RecursiveBacktracking, None, Some(12345));
}

#[test]
fn test_empty_maze() {
    let mut maze = Maze::new();
    GeneratorType::RecursiveBacktracking.generate(&mut maze, None, None);
    assert!(
        maze.is_empty(),
        "Empty maze should remain empty after generation"
    );
}

fn walls_removed_from(start: Hex) {
    let mut maze = create_hex_maze(3);
    generate_backtracking(&mut maze, Some(start), Some(12345));
    for pos in maze.keys() {
        let walls = maze.get_walls(&pos).unwrap();
        assert!(
            walls.count() < 6,
            "At least one wall should be removed for each tile"
        );
    }
}

#[test]
fn recursive_backtrack_walls_removed_origin() {
    walls_removed_from(Hex::zero());
}

#[test]
fn recursive_backtrack_walls_removed_north_east() {
    walls_removed_from(Hex::new(1, -1));
}

#[test]
fn recursive_backtrack_walls_removed_south_west() {
    walls_removed_from(Hex::new(-2, 2));
}

fn connected_from(start: Hex) {
    let mut maze = create_hex_maze(3);
    generate_backtracking(&mut maze, Some(start), Some(12345));

    let mut to_visit = vec![start];
    let mut connected = HashSet::new();
    while let Some(current) = to_visit.pop() {
        if !connected.insert(current) {
            continue;
        }
        for dir in EdgeDirection::ALL_DIRECTIONS {
            let neighbor = current.neighbor(dir).unwrap();
            if let Some(walls) = maze.get_walls(&current) {
                if !walls.contains(dir) && maze.get(&neighbor).is_some() {
                    to_visit.push(neighbor);
                }
            }
        }
    }
    assert_eq!(connected.len(), maze.len(), "All tiles should be connected");
}

#[test]
fn recursive_backtrack_connectivity_origin() {
    connected_from(Hex::zero());
}

#[test]
fn recursive_backtrack_connectivity_north_east() {
    connected_from(Hex::new(1, -1));
}

#[test]
fn recursive_backtrack_connectivity_south_west() {
    connected_from(Hex::new(-2, 2));
}

#[test]
fn start_outside_the_maze_changes_nothing() {
    let mut maze = create_hex_maze(2);
    let before = maze.clone();
    generate_backtracking(&mut maze, Some(Hex::new(7, 7)), Some(5));
    assert_eq!(maze, before);

    let mut away = Maze::new();
    away.insert(Hex::new(4, 4));
    away.insert(Hex::new(5, 4));
    let before = away.clone();
    generate_backtracking(&mut away, None, Some(5));
    assert_eq!(away, before);
}

#[test]
fn carve_follows_the_orders() {
    let mut maze = Maze::new();
    maze.insert(Hex::new(0, 0));
    maze.insert(Hex::new(1, 0));
    maze.insert(Hex::new(0, 1));
    let plain = EdgeDirection::ALL_DIRECTIONS;
    carve(&mut maze, Hex::new(0, 0), &vec![plain, plain, plain]);
    // From the origin the walk first goes to (1, 0); from there the third
    // direction leads on to (0, 1), so the origin keeps its wall towards it.
    assert_eq!(maze.get_walls(&Hex::new(0, 0)).unwrap().as_bits(), 0b111110);
    assert_eq!(maze.get_walls(&Hex::new(1, 0)).unwrap().as_bits(), 0b110011);
    assert_eq!(maze.get_walls(&Hex::new(0, 1)).unwrap().as_bits(), 0b011111);

    let mut maze = Maze::new();
    maze.insert(Hex::new(0, 0));
    maze.insert(Hex::new(1, 0));
    maze.insert(Hex::new(0, 1));
    let reversed = [
        EdgeDirection::FLAT_NORTH_EAST,
        EdgeDirection::FLAT_NORTH,
        EdgeDirection::FLAT_NORTH_WEST,
        EdgeDirection::FLAT_SOUTH_WEST,
        EdgeDirection::FLAT_SOUTH,
        EdgeDirection::FLAT_SOUTH_EAST,
    ];
    carve(&mut maze, Hex::new(0, 0), &vec![reversed, reversed, reversed]);
    assert_eq!(maze.get_walls(&Hex::new(0, 0)).unwrap().as_bits(), 0b111101);
    assert_eq!(maze.get_walls(&Hex::new(0, 1)).unwrap().as_bits(), 0b001111);
    assert_eq!(maze.get_walls(&Hex::new(1, 0)).unwrap().as_bits(), 0b111011);
}

#[test]
fn carve_without_orders_tries_directions_by_index() {
    let mut given = create_hex_maze(2);
    let plain = EdgeDirection::ALL_DIRECTIONS;
    carve(&mut given, Hex::zero(), &vec![plain; 19]);
    let mut missing = create_hex_maze(2);
    carve(&mut missing, Hex::zero(), &Vec::new());
    assert_eq!(given, missing);
}

#[test]
fn shuffled_orders_differ_from_plain_order() {
    let mut plain = create_hex_maze(4);
    carve(&mut plain, Hex::zero(), &Vec::new());
    let mut seeded = create_hex_maze(4);
    generate_backtracking(&mut seeded, None, Some(12345));
    assert_ne!(plain, seeded);
}

#[test]
fn unseeded_runs_differ() {
    let mut first = create_hex_maze(6);
    generate_backtracking(&mut first, None, None);
    let mut same = true;
    for _ in 0..4 {
        let mut next = create_hex_maze(6);
        generate_backtracking(&mut next, None, None);
        if next != first {
            same = false;
        }
    }
    assert!(!same);
}

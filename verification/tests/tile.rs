use hexlab::{EdgeDirection, Hex, Tile, TilePosition, WallStorage, Walls};
use rand::Rng;

fn random_hex() -> Hex {
    let mut rng = rand::thread_rng();
    Hex::new(rng.gen(), rng.gen())
}

#[test]
fn new_tile() {
    let pos = Hex::zero();
    let tile = Tile::new(pos);

    assert_eq!(tile.pos(), pos, "Position should match constructor argument");
    assert_eq!(
        *tile.walls(),
        Walls::default(),
        "Walls should be initialized to default"
    );
}

#[test]
fn tile_walls_accessor() {
    let pos = Hex::new(1, -1);
    let tile = Tile::new(pos);

    let walls_ref = tile.walls();
    assert_eq!(
        walls_ref,
        &Walls::default(),
        "Walls accessor should return reference to walls"
    );
}

#[test]
fn tile_modification() {
    let pos = Hex::new(2, 3);
    let mut tile = Tile::new(pos);

    tile.walls_mut().remove(EdgeDirection::FLAT_TOP);
    assert!(
        !tile.walls().contains(EdgeDirection::FLAT_TOP),
        "Wall should be removed"
    );

    tile.walls_mut().insert(EdgeDirection::FLAT_TOP);
    assert!(
        tile.walls().contains(EdgeDirection::FLAT_TOP),
        "Wall should be added back"
    );
    assert_eq!(tile.pos(), pos);
}

#[test]
fn tile_clone() {
    let pos = Hex::new(0, -2);
    let tile = Tile::new(pos);

    let cloned_tile = tile.clone();
    assert_eq!(tile, cloned_tile, "Cloned tile should equal original");
}

#[test]
fn hex_tile_different_positions() {
    let positions = [
        Hex::zero(),
        Hex::new(1, 0),
        Hex::new(-1, 1),
        Hex::new(2, -2),
    ];

    let tiles = positions
        .iter()
        .map(|&pos| Tile::new(pos))
        .collect::<Vec<_>>();

    for (tile, &pos) in tiles.iter().zip(positions.iter()) {
        assert_eq!(
            tile.pos(),
            pos,
            "Tile position should match constructor argument"
        );
    }
}

#[test]
fn tile_equality() {
    let pos1 = Hex::new(1, 1);
    let pos2 = Hex::new(1, 1);
    let pos3 = Hex::new(2, 1);

    let tile1 = Tile::new(pos1);
    let tile2 = Tile::new(pos2);
    let tile3 = Tile::new(pos3);

    assert_eq!(tile1, tile2, "Tiles with same position should be equal");
    assert_ne!(
        tile1, tile3,
        "Tiles with different positions should not be equal"
    );

    let mut tile4 = Tile::new(pos1);
    tile4.walls_mut().remove(EdgeDirection::FLAT_TOP);
    assert_ne!(
        tile1, tile4,
        "Tiles with different walls should not be equal"
    );
}

#[test]
fn hex_tile_hex_boundaries() {
    let extreme_positions = [
        Hex::new(i32::MAX, i32::MIN),
        Hex::new(i32::MIN, i32::MAX),
        Hex::new(0, i32::MAX),
        Hex::new(i32::MIN, 0),
    ];

    for pos in extreme_positions {
        let tile = Tile::new(pos);
        assert_eq!(
            tile.pos(),
            pos,
            "Tile should handle extreme coordinate values"
        );
    }
}

#[test]
fn tile_different_positions() {
    let positions = [
        Hex::zero(),
        Hex::new(1, 0),
        Hex::new(-1, 1),
        Hex::new(2, -2),
    ];

    let tiles = positions
        .iter()
        .map(|&pos| Tile::new(pos))
        .collect::<Vec<_>>();

    for (tile, &pos) in tiles.iter().zip(positions.iter()) {
        assert_eq!(tile.pos(), pos);
    }
}

#[test]
fn tile_hex_boundaries() {
    let extreme_positions = [
        Hex::new(i32::MAX, i32::MIN),
        Hex::new(i32::MIN, i32::MAX),
        Hex::new(0, i32::MAX),
        Hex::new(i32::MIN, 0),
    ];

    for pos in extreme_positions {
        let tile = Tile::new(pos);
        assert_eq!(tile.pos(), pos);
    }
}

#[test]
fn hex_tile_creation_and_properties() {
    let hex = random_hex();
    let tile = Tile::new(hex);

    assert_eq!(tile.pos(), hex);
    assert!(tile.walls().is_enclosed());
}

#[test]
fn hex_tile_from_hex() {
    let hex = random_hex();
    let tile = Tile::from(hex);

    assert_eq!(tile.pos(), hex);
    assert_eq!(*tile.walls(), Walls::default());
}

#[test]
fn hex_hex_into_tile() {
    let hex = random_hex();
    let tile: Tile = hex.into();

    assert_eq!(tile.pos(), hex);
    assert_eq!(*tile.walls(), Walls::default());
}

#[test]
fn hex_tile_display() {
    let tile = Tile::new(Hex::new(3, -3));
    assert_eq!(tile.to_string(), "(3,-3)");
}

#[test]
fn hex_tile_wall_modifications() {
    let mut tile = Tile::new(Hex::zero());

    for direction in EdgeDirection::ALL_DIRECTIONS {
        tile.walls_mut().insert(direction);
    }
    assert_eq!(tile.walls().count(), 6);

    for direction in EdgeDirection::ALL_DIRECTIONS {
        tile.walls_mut().remove(direction);
    }
    assert_eq!(tile.walls().count(), 0);
}

#[test]
fn tile_label_of_extreme_positions() {
    assert_eq!(Tile::new(Hex::new(0, 0)).to_string(), "(0,0)");
    assert_eq!(
        Tile::new(Hex::new(i32::MIN, i32::MAX)).to_string(),
        "(-2147483648,2147483647)"
    );
}

#[test]
fn default_tile_is_at_origin() {
    let tile = Tile::default();
    assert_eq!(tile.pos(), Hex::new(0, 0));
    assert!(tile.walls().is_enclosed());
}

use hexlab::{EdgeDirection, Walls};

#[test]
fn all_directions_creates_closed_walls() {
    let walls = Walls::all_directions();
    assert!(walls.is_enclosed());
    assert!(!walls.is_empty());
    assert_eq!(walls.as_bits(), 0b111111);
}

#[test]
fn as_bits_empty() {
    let walls = Walls::empty();
    assert_eq!(walls.as_bits(), 0);
}

#[test]
fn as_bits_single_wall() {
    let mut walls = Walls::empty();
    walls.insert(EdgeDirection::FLAT_NORTH);
    assert_eq!(walls.as_bits(), 0b010000);
}

#[test]
fn as_bits_multiple_walls() {
    let mut walls = Walls::empty();
    walls.insert(EdgeDirection::FLAT_NORTH);
    walls.insert(EdgeDirection::FLAT_SOUTH);
    assert_eq!(walls.as_bits(), 0b010010);
}

#[test]
fn as_bits_all_walls() {
    let walls = Walls::new();
    assert_eq!(walls.as_bits(), 0b111111);
}

#[test]
fn new_created_closed_walls() {
    let walls = Walls::new();
    assert!(walls.is_enclosed());
    assert_eq!(walls.as_bits(), 0b111111);
}

#[test]
fn empty_creates_no_walls() {
    let walls = Walls::empty();
    assert!(walls.is_empty());
    assert_eq!(walls.as_bits(), 0);
}

#[test]
fn insert_single_wall() {
    let mut walls = Walls::empty();
    walls.insert(EdgeDirection::FLAT_NORTH);
    assert!(walls.contains(EdgeDirection::FLAT_NORTH));
    assert_eq!(walls.count(), 1);
}

#[test]
fn remove_existing_wall() {
    let mut walls = Walls::new();
    assert!(walls.remove(EdgeDirection::FLAT_NORTH));
    assert!(!walls.contains(EdgeDirection::FLAT_NORTH));
}

#[test]
fn remove_nonexistent_wall() {
    let mut walls = Walls::empty();
    assert!(!walls.remove(EdgeDirection::FLAT_NORTH));
    walls.insert(EdgeDirection::FLAT_NORTH);
    assert!(walls.remove(EdgeDirection::FLAT_NORTH));
}

#[test]
fn toggle_wall() {
    let mut walls = Walls::empty();
    assert!(!walls.toggle(EdgeDirection::FLAT_NORTH));
    assert!(walls.contains(EdgeDirection::FLAT_NORTH));
}

#[test]
fn toggle_removes_wall() {
    let mut walls = Walls::new();
    assert!(walls.toggle(EdgeDirection::FLAT_NORTH));
    assert!(!walls.contains(EdgeDirection::FLAT_NORTH));
}

#[test]
fn fill_adds_multiple_walls() {
    let mut walls = Walls::empty();
    walls.fill(Walls::from([
        EdgeDirection::FLAT_NORTH,
        EdgeDirection::FLAT_SOUTH,
    ]));
    assert!(walls.contains(EdgeDirection::FLAT_NORTH));
    assert!(walls.contains(EdgeDirection::FLAT_SOUTH));
    assert_eq!(walls.count(), 2);
}

#[test]
fn fill_preserves_existing_walls() {
    let mut walls = Walls::empty();
    walls.insert(EdgeDirection::FLAT_NORTH);
    walls.fill(Walls::from([
        EdgeDirection::FLAT_SOUTH,
        EdgeDirection::FLAT_SOUTH_EAST,
    ]));
    assert!(walls.contains(EdgeDirection::FLAT_NORTH));
    assert!(walls.contains(EdgeDirection::FLAT_SOUTH));
    assert!(walls.contains(EdgeDirection::FLAT_SOUTH_EAST));
    assert_eq!(walls.count(), 3);
}

#[test]
fn from_edge_direction_conversion() {
    let walls: Walls = EdgeDirection::FLAT_NORTH.into();
    assert!(walls.contains(EdgeDirection::FLAT_NORTH));
    assert_eq!(walls.count(), 1);
}

#[test]
fn from_u8_conversion() {
    let walls: Walls = 0u8.into();
    assert!(walls.contains(EdgeDirection::FLAT_SOUTH_EAST));
    assert_eq!(walls.count(), 1);
}

#[test]
fn from_array_conversion() {
    let walls: Walls = [EdgeDirection::FLAT_NORTH, EdgeDirection::FLAT_SOUTH].into();
    assert!(walls.contains(EdgeDirection::FLAT_NORTH));
    assert!(walls.contains(EdgeDirection::FLAT_SOUTH));
    assert_eq!(walls.count(), 2);
}

#[test]
fn from_iterator_handles_duplicates() {
    let directions = vec![
        EdgeDirection::FLAT_NORTH,
        EdgeDirection::FLAT_SOUTH,
        EdgeDirection::FLAT_NORTH,
    ];
    let walls = Walls::from_directions(&directions);
    assert_eq!(walls.count(), 2);
}

#[test]
fn default_creates_closed_walls() {
    let walls = Walls::default();
    assert!(walls.is_enclosed());
    assert_eq!(walls.as_bits(), 0b111111);
}

#[test]
fn from_iterator() {
    let directions = vec![
        EdgeDirection::FLAT_NORTH,
        EdgeDirection::FLAT_SOUTH,
        EdgeDirection::FLAT_NORTH,
    ];
    let walls = Walls::from_directions(&directions);
    assert_eq!(walls.count(), 2);
    assert!(walls.contains(EdgeDirection::FLAT_NORTH));
    assert!(walls.contains(EdgeDirection::FLAT_SOUTH));
}

#[test]
fn bit_manipulation() {
    let mut walls = Walls::empty();

    walls.insert(EdgeDirection::FLAT_NORTH);
    assert_eq!(walls.as_bits(), 0b010000);

    walls.insert(EdgeDirection::FLAT_SOUTH);
    assert_eq!(walls.as_bits(), 0b010010);

    walls.insert(EdgeDirection::FLAT_SOUTH_EAST);
    assert_eq!(walls.as_bits(), 0b010011);
    walls.remove(EdgeDirection::FLAT_SOUTH);
    assert_eq!(walls.as_bits(), 0b010001);
}

#[test]
fn from_edge_direction_flat_south_east() {
    let walls = Walls::from(EdgeDirection::FLAT_SOUTH_EAST);
    assert_eq!(walls.as_bits(), 0b000001);
}

#[test]
fn from_edge_direction_flat_south() {
    let walls = Walls::from(EdgeDirection::FLAT_SOUTH);
    assert_eq!(walls.as_bits(), 0b000010);
}

#[test]
fn from_edge_direction_flat_south_west() {
    let walls = Walls::from(EdgeDirection::FLAT_SOUTH_WEST);
    assert_eq!(walls.as_bits(), 0b000100);
}

#[test]
fn from_edge_direction_flat_north_west() {
    let walls = Walls::from(EdgeDirection::FLAT_NORTH_WEST);
    assert_eq!(walls.as_bits(), 0b001000);
}

#[test]
fn from_edge_direction_flat_north() {
    let walls = Walls::from(EdgeDirection::FLAT_NORTH);
    assert_eq!(walls.as_bits(), 0b010000);
}

#[test]
fn from_edge_direction_flat_east() {
    let walls = Walls::from(EdgeDirection::FLAT_NORTH_EAST);
    assert_eq!(walls.as_bits(), 0b100000);
}

#[test]
fn from_iterator_empty() {
    let directions: Vec<EdgeDirection> = Vec::new();
    let walls = Walls::from_directions(&directions);
    assert!(walls.is_empty());
}

#[test]
fn from_iterator_single() {
    let walls = Walls::from_directions(&vec![EdgeDirection::FLAT_SOUTH]);
    assert_eq!(walls.as_bits(), 0b000010);
}

#[test]
fn from_iterator_multiple() {
    let walls = Walls::from_directions(&vec![
        EdgeDirection::FLAT_NORTH,
        EdgeDirection::FLAT_SOUTH,
    ]);
    assert_eq!(walls.as_bits(), 0b010010);
}

#[test]
fn from_iterator_duplicates() {
    let walls = Walls::from_directions(&vec![
        EdgeDirection::FLAT_NORTH,
        EdgeDirection::FLAT_NORTH,
        EdgeDirection::FLAT_SOUTH,
    ]);
    assert_eq!(walls.as_bits(), 0b010010);
}

#[test]
fn from_iterator_all_directions() {
    let walls = Walls::from_directions(&EdgeDirection::ALL_DIRECTIONS);
    assert_eq!(walls.as_bits(), 0b111111);
}

#[test]
fn from_array_empty() {
    let walls = Walls::from([]);
    assert!(walls.is_empty());
}

#[test]
fn from_array_single() {
    let walls = Walls::from([EdgeDirection::FLAT_NORTH]);
    assert_eq!(walls.as_bits(), 0b010000);
}

#[test]
fn from_array_multiple() {
    let walls = Walls::from([EdgeDirection::FLAT_NORTH, EdgeDirection::FLAT_SOUTH]);
    assert_eq!(walls.as_bits(), 0b010010);
}

#[test]
fn from_array_duplicates() {
    let walls = Walls::from([
        EdgeDirection::FLAT_NORTH,
        EdgeDirection::FLAT_NORTH,
        EdgeDirection::FLAT_SOUTH,
    ]);
    assert_eq!(walls.as_bits(), 0b010010);
}

#[test]
fn from_array_all_directions() {
    let walls = Walls::from([
        EdgeDirection::FLAT_NORTH,
        EdgeDirection::FLAT_NORTH_EAST,
        EdgeDirection::FLAT_SOUTH_EAST,
        EdgeDirection::FLAT_SOUTH,
        EdgeDirection::FLAT_SOUTH_WEST,
        EdgeDirection::FLAT_NORTH_WEST,
    ]);
    assert_eq!(walls.as_bits(), 0b111111);
}

#[test]
fn insert_returns_previous_state() {
    let mut walls = Walls::empty();
    assert_eq!(walls.count(), 0);
    assert!(!walls.insert(EdgeDirection::from_index(1)));
    assert_eq!(walls.count(), 1);
    assert!(walls.insert(EdgeDirection::from_index(1)));
    assert_eq!(walls.count(), 1);
    assert!(!walls.insert(EdgeDirection::FLAT_NORTH));
    assert_eq!(walls.count(), 2);
}

#[test]
fn remove_returns_previous_state() {
    let mut walls = Walls::new();
    assert!(walls.remove(EdgeDirection::from_index(1)));
    assert_eq!(walls.count(), 5);
    assert!(!walls.remove(EdgeDirection::from_index(1)));
    assert_eq!(walls.count(), 5);
    assert!(walls.remove(EdgeDirection::FLAT_NORTH));
    assert_eq!(walls.count(), 4);
}

#[test]
fn toggle_twice_restores() {
    let mut walls = Walls::empty();
    assert!(!walls.toggle(EdgeDirection::from_index(0)));
    assert_eq!(walls.count(), 1);
    assert!(walls.toggle(EdgeDirection::from_index(0)));
    assert_eq!(walls.count(), 0);
}

#[test]
fn count_goes_over_every_direction() {
    let mut walls = Walls::empty();
    let mut expected = 0;
    for d in EdgeDirection::ALL_DIRECTIONS {
        assert_eq!(walls.count(), expected);
        walls.insert(d);
        expected += 1;
    }
    assert_eq!(walls.count(), 6);
    assert!(walls.is_enclosed());
}

#[test]
fn from_index_without_direction_is_empty() {
    for index in 6u8..=255 {
        assert!(Walls::from(index).is_empty());
    }
    for index in 0u8..6 {
        assert_eq!(Walls::from(index).as_bits(), 1 << index);
    }
}

#[test]
fn fill_with_all_directions_encloses() {
    let mut walls = Walls::from(EdgeDirection::FLAT_SOUTH);
    walls.fill(Walls::all_directions());
    assert!(walls.is_enclosed());
    assert_eq!(walls.as_bits(), 0b111111);
}

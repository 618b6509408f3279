//! Hexagonal mazes: a wall set per tile, a maze container keyed by axial
//! position, a randomized depth-first carver that turns a fully walled grid
//! into a perfect maze, and an A* path finder over the carved walls.
//!
//! - [`hex`]: positions and edge directions.
//! - [`walls`], [`tile`], [`traits`]: the six walls of a tile and the tile.
//! - [`hex_map`], [`maze`]: the container and its edits.
//! - [`shape`]: the fully walled hexagon that a maze is carved from.
//! - [`carve`], [`generator`]: the depth-first walk, as a state machine over
//!   given orders of the directions, and the drawing of those orders.
//! - [`perfect`]: what carving guarantees, proved of the state machine.
//! - [`pathfinding`]: shortest paths, with the model of the search.
//! - [`builder`], [`errors`]: building a maze from a configuration.
pub mod builder;
pub mod carve;
pub mod errors;
pub mod generator;
pub mod hex;
pub mod hex_map;
pub mod maze;
pub mod pathfinding;
pub mod perfect;
pub mod shape;
pub mod tile;
pub mod traits;
pub mod walls;

pub use builder::MazeBuilder;
pub use carve::carve;
pub use errors::{MazeBuilderError, MazeError};
pub use generator::{generate_backtracking, GeneratorType};
pub use hex::{EdgeDirection, Hex};
pub use maze::Maze;
pub use pathfinding::Node;
pub use shape::create_hex_maze;
pub use tile::Tile;
pub use traits::{TilePosition, WallStorage};
pub use walls::Walls;

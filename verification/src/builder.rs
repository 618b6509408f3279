//! Building a maze from a configuration.
use crate::errors::MazeBuilderError;
use crate::generator::{generated, lemma_generated_perfect, start_or_origin, GeneratorType};
use crate::perfect::perfect;
use crate::hex::Hex;
use crate::maze::Maze;
use crate::shape::{create_hex_maze, hexagon, hexagon_size, in_hexagon, lemma_hexagon};
use vstd::prelude::*;

verus! {

/// The configuration of a maze: the radius of its grid, the seed of its
/// random choices, the way to generate it and where to start.
#[derive(Clone, Copy, Debug)]
pub struct MazeBuilder {
    radius: Option<u16>,
    seed: Option<u64>,
    generator_type: GeneratorType,
    start_position: Option<Hex>,
}

impl MazeBuilder {
    /// The radius that was set.
    pub closed spec fn radius_spec(self) -> Option<u16> {
        self.radius
    }

    /// The seed that was set.
    pub closed spec fn seed_spec(self) -> Option<u64> {
        self.seed
    }

    /// The way to generate the maze.
    pub closed spec fn generator_spec(self) -> GeneratorType {
        self.generator_type
    }

    /// The start position that was set.
    pub closed spec fn start_spec(self) -> Option<Hex> {
        self.start_position
    }

    /// The configuration with nothing set.
    pub fn new() -> (b: MazeBuilder)
        ensures
            b.radius_spec() is None,
            b.seed_spec() is None,
            b.generator_spec() == GeneratorType::RecursiveBacktracking,
            b.start_spec() is None,
    {
        MazeBuilder {
            radius: None,
            seed: None,
            generator_type: GeneratorType::RecursiveBacktracking,
            start_position: None,
        }
    }

    /// Sets the radius: the number of tiles from the centre to the edge of
    /// the grid, not counting the centre.
    pub fn with_radius(self, radius: u16) -> (b: MazeBuilder)
        ensures
            b.radius_spec() == Some(radius),
            b.seed_spec() == self.seed_spec(),
            b.generator_spec() == self.generator_spec(),
            b.start_spec() == self.start_spec(),
    {
        MazeBuilder {
            radius: Some(radius),
            seed: self.seed,
            generator_type: self.generator_type,
            start_position: self.start_position,
        }
    }

    /// Sets the seed of the random choices.
    pub fn with_seed(self, seed: u64) -> (b: MazeBuilder)
        ensures
            b.radius_spec() == self.radius_spec(),
            b.seed_spec() == Some(seed),
            b.generator_spec() == self.generator_spec(),
            b.start_spec() == self.start_spec(),
    {
        MazeBuilder {
            radius: self.radius,
            seed: Some(seed),
            generator_type: self.generator_type,
            start_position: self.start_position,
        }
    }

    /// Sets the way to generate the maze.
    pub fn with_generator(self, generator_type: GeneratorType) -> (b: MazeBuilder)
        ensures
            b.radius_spec() == self.radius_spec(),
            b.seed_spec() == self.seed_spec(),
            b.generator_spec() == generator_type,
            b.start_spec() == self.start_spec(),
    {
        MazeBuilder {
            radius: self.radius,
            seed: self.seed,
            generator_type,
            start_position: self.start_position,
        }
    }

    /// Sets the position from which the maze is generated.
    pub fn with_start_position(self, pos: Hex) -> (b: MazeBuilder)
        ensures
            b.radius_spec() == self.radius_spec(),
            b.seed_spec() == self.seed_spec(),
            b.generator_spec() == self.generator_spec(),
            b.start_spec() == Some(pos),
    {
        MazeBuilder {
            radius: self.radius,
            seed: self.seed,
            generator_type: self.generator_type,
            start_position: Some(pos),
        }
    }

    /// The radius that was set.
    pub fn radius(&self) -> (r: Option<u16>)
        ensures
            r == self.radius_spec(),
    {
        self.radius
    }

    /// The seed that was set.
    pub fn seed(&self) -> (s: Option<u64>)
        ensures
            s == self.seed_spec(),
    {
        self.seed
    }

    /// The way to generate the maze.
    pub fn generator_type(&self) -> (g: GeneratorType)
        ensures
            g == self.generator_spec(),
    {
        self.generator_type
    }

    /// The start position that was set.
    pub fn start_position(&self) -> (p: Option<Hex>)
        ensures
            p == self.start_spec(),
    {
        self.start_position
    }

    /// Builds the maze: shapes the hexagon of the radius that was set and
    /// generates a maze in it, from the start position that was set or else
    /// from the origin. The maze is a perfect maze on the tiles of the
    /// hexagon.
    ///
    /// Without a radius the error is `NoRadius`; with a start position that
    /// is no tile of the hexagon it is `InvalidStartPosition`.
    pub fn build(self) -> (r: Result<Maze, MazeBuilderError>)
        ensures
            self.radius_spec() is None ==> r == Err::<Maze, MazeBuilderError>(
                MazeBuilderError::NoRadius,
            ),
            self.radius_spec() matches Some(radius) ==> match self.start_spec() {
                Some(start) if !in_hexagon(start, radius as int) => r == Err::<
                    Maze,
                    MazeBuilderError,
                >(MazeBuilderError::InvalidStartPosition(start)),
                _ => r matches Ok(maze) && built(
                    radius as int,
                    self.start_spec(),
                    self.seed_spec(),
                    maze@,
                ),
            },
    {
        let radius = match self.radius {
            Some(radius) => radius,
            None => {
                return Err(MazeBuilderError::NoRadius);
            },
        };
        let mut maze = create_hex_maze(radius);
        if let Some(start_pos) = self.start_position {
            if maze.get(&start_pos).is_none() {
                return Err(MazeBuilderError::InvalidStartPosition(start_pos));
            }
        }
        proof {
            maze.lemma_finite();
            lemma_hexagon(radius as int);
            assert(hexagon_size(radius as int) >= 2 <==> radius >= 1) by (nonlinear_arith)
                requires
                    radius >= 0,
            ;
        }
        if !maze.is_empty() {
            self.generator_type.generate(&mut maze, self.start_position, self.seed);
        }
        proof {
            let grid = hexagon(radius as int);
            let start = start_or_origin(self.start_position);
            lemma_generated_perfect(grid, self.start_position, self.seed, maze@);
        }
        Ok(maze)
    }
}

/// Whether `maze` is what `build` makes of a radius, a start position and a
/// seed: what the generator makes of the hexagon of that radius, which is a
/// perfect maze on the tiles of the hexagon in which every tile has an edge
/// without a wall unless it is the only tile.
pub open spec fn built(
    radius: int,
    start_pos: Option<Hex>,
    seed: Option<u64>,
    maze: Map<Hex, crate::walls::Walls>,
) -> bool {
    &&& generated(hexagon(radius), start_pos, seed, maze)
    &&& forall|h: Hex| #[trigger] maze.contains_key(h) <==> in_hexagon(h, radius)
    &&& maze.dom().len() == hexagon_size(radius)
    &&& perfect(maze, start_or_origin(start_pos))
    &&& radius >= 1 ==> forall|h: Hex| maze.contains_key(h) ==> (#[trigger] maze[h]).count_spec() < 6
}

impl Default for MazeBuilder {
    /// The configuration with nothing set.
    fn default() -> (b: MazeBuilder)
        ensures
            b.radius_spec() is None,
            b.seed_spec() is None,
            b.generator_spec() == GeneratorType::RecursiveBacktracking,
            b.start_spec() is None,
    {
        MazeBuilder::new()
    }
}

} // verus!

//! A small library of maze generation and maze-solving algorithms.
//!
//! * The [`Algorithm`] trait encapsulates the behavior of a maze-solving
//!   strategy; [`implementations`] holds the provided strategies.
//! * [`Maze`] is the grid-graph data structure, [`SimpleGenerator`] carves
//!   random perfect mazes into it, and [`Executor`] drives a strategy
//!   step by step until the end cell is reached.

mod algorithm;
mod error;
mod executor;
mod generator;
pub mod implementations;
mod labyrinth;
mod position;

pub use algorithm::Algorithm;
pub use error::{MazeError, SolveError};
pub use generator::{MazeGenerator, SimpleGenerator};
pub use executor::builder::{
    new_builder, BuildableMazeState, ExecutorBuilder, Generated, MazeState, Provided, Unprovided,
};
pub use executor::{Context, Executor, Guess, Insight};
pub use labyrinth::{
    all_cells_inside, all_pairs_adjacent, contains_pos, entry_appends, grid_adjacent, inside_rect,
    is_grid_adjacent, lemma_adjacency_symmetric, opened_appends, overlay_char, requested, Maze,
    MazeView,
};
pub use position::{Pos, MAX_DIM};

//! Error values reported by the library.

use vstd::prelude::*;

verus! {

/// Errors arising from constructing or querying a [`crate::Maze`].
#[derive(Debug, Clone, Copy, PartialEq, Eq, Structural)]
pub enum MazeError {
    /// A requested grid dimension is below 1 or above [`crate::MAX_DIM`].
    InvalidSize,
    /// A referenced position lies outside the maze rectangle.
    OutOfBounds,
    /// A requested passage would connect two cells that are not
    /// grid-adjacent.
    NotAdjacent,
}

impl MazeError {
    /// A human-readable description of the error.
    pub fn message(&self) -> (r: &'static str)
        ensures
            *self is InvalidSize ==> r@ == "maze dimensions out of range"@,
            *self is OutOfBounds ==> r@ == "position out of bounds"@,
            *self is NotAdjacent ==> r@ == "cells are not grid-adjacent"@,
    {
        match self {
            MazeError::InvalidSize => "maze dimensions out of range",
            MazeError::OutOfBounds => "position out of bounds",
            MazeError::NotAdjacent => "cells are not grid-adjacent",
        }
    }
}

/// Errors arising while driving a solving algorithm over a maze.
#[derive(Debug, Clone, Copy, PartialEq, Eq, Structural)]
pub enum SolveError {
    /// The algorithm returned a guess with no positions in it.
    EmptyGuess,
    /// The algorithm proposed a step through a wall, a step outside the
    /// rectangle, or a cell out of the maze.
    IllegalMove,
    /// No unvisited branch remains anywhere in the algorithm's state: the
    /// maze is unsolvable from its start, or the protocol was broken.
    Exhausted,
}

impl SolveError {
    /// A human-readable description of the error.
    pub fn message(&self) -> (r: &'static str)
        ensures
            *self is EmptyGuess ==> r@ == "algorithm returned an empty guess"@,
            *self is IllegalMove ==> r@ == "guess steps through a wall or leaves the maze"@,
            *self is Exhausted ==> r@ == "no unvisited branch remains"@,
    {
        match self {
            SolveError::EmptyGuess => "algorithm returned an empty guess",
            SolveError::IllegalMove => "guess steps through a wall or leaves the maze",
            SolveError::Exhausted => "no unvisited branch remains",
        }
    }
}

} // verus!

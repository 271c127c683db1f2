//! The [`Algorithm`] trait, implemented by maze-solving strategies.
//! The provided implementations live in [`crate::implementations`].

use vstd::prelude::*;

use crate::error::SolveError;
use crate::executor::{Context, Guess, Insight};

verus! {

/// Trait encapsulating the behavior of an algorithm solving mazes.
/// Implementing this trait is done by providing a `progress` method,
/// which gets called on each step of the traversal of the maze.
pub trait Algorithm {
    /// Well-formedness of the algorithm's retained state; established by
    /// its constructor and preserved by every `progress` call.
    spec fn inv(&self) -> bool;

    /// Called on each step of the traversal. `insight` is a view on the
    /// position discovered by the previous movement (the start cell on
    /// the first call), paired with exactly the open passages leading
    /// out of that position in the maze that `ctx` views. A successful
    /// call returns a non-empty guess; an error signals that no
    /// unvisited branch remains.
    fn progress(&mut self, insight: &Insight, ctx: &mut Context<'_>) -> (r: Result<
        Guess,
        SolveError,
    >)
        requires
            old(self).inv(),
            old(ctx).spec_maze().wf(),
            old(ctx).spec_maze().inside(insight.spec_position()),
            insight.spec_paths() == old(ctx).spec_maze().adj[insight.spec_position()],
        ensures
            final(self).inv(),
            r matches Ok(g) ==> g@.len() > 0,
    ;
}

} // verus!

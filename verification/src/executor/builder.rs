//! Builder for an [`crate::Executor`]: the maze source is tracked in the
//! type, so only a builder that was given a maze or a generator can be
//! built.

use vstd::prelude::*;

use crate::generator::MazeGenerator;
use crate::labyrinth::Maze;

verus! {

/// Describes the state of the maze parameter in the builder of an
/// executor. Not meant to be implemented outside this library.
pub trait MazeState {
    /// Whether this state can take part in a well-formed builder.
    spec fn wf(&self) -> bool;
}

/// A maze state that can yield a maze: a builder holding one can be
/// built.
pub trait BuildableMazeState: MazeState {
    /// Which mazes this source can yield.
    spec fn yields(&self, m: Maze) -> bool;

    /// Takes the maze out of the state.
    fn get(self) -> (r: Maze)
        requires
            self.wf(),
        ensures
            r.wf(),
            self.yields(r),
    ;
}

/// No maze source was provided yet.
pub struct Unprovided;

impl MazeState for Unprovided {
    open spec fn wf(&self) -> bool {
        true
    }
}

/// A pre-built maze was provided.
pub struct Provided {
    maze: Maze,
}

impl Provided {
    /// The maze this source holds.
    pub closed spec fn spec_maze(&self) -> Maze {
        self.maze
    }

    /// Constructor.
    pub fn new(maze: Maze) -> (r: Self)
        requires
            maze.wf(),
        ensures
            r.wf(),
            r.spec_maze() == maze,
    {
        Provided { maze }
    }
}

impl MazeState for Provided {
    closed spec fn wf(&self) -> bool {
        self.maze.wf()
    }
}

impl BuildableMazeState for Provided {
    /// This source yields exactly the maze it was given.
    closed spec fn yields(&self, m: Maze) -> bool {
        m == self.maze
    }

    fn get(self) -> (r: Maze) {
        self.maze
    }
}

/// A maze generator was provided; the maze is generated when the
/// builder is built.
pub struct Generated<G: MazeGenerator> {
    generator: G,
}

impl<G: MazeGenerator> Generated<G> {
    /// The generator this source holds.
    pub closed spec fn spec_generator(&self) -> G {
        self.generator
    }

    /// Constructor.
    pub fn new(generator: G) -> (r: Self)
        requires
            generator.wf(),
        ensures
            r.wf(),
            r.spec_generator() == generator,
    {
        Generated { generator }
    }
}

impl<G: MazeGenerator> MazeState for Generated<G> {
    closed spec fn wf(&self) -> bool {
        self.generator.wf()
    }
}

impl<G: MazeGenerator> BuildableMazeState for Generated<G> {
    /// A generated maze is any well-formed maze: nothing more is known
    /// of a randomized generator's output through this interface.
    open spec fn yields(&self, m: Maze) -> bool {
        m.wf()
    }

    fn get(self) -> (r: Maze) {
        self.generator.generate()
    }
}

/// Builder for an [`crate::Executor`]: needs at least a maze source.
pub struct ExecutorBuilder<MS: MazeState> {
    maze_state: MS,
    delay: u64,
}

/// A fresh builder: no maze source yet, and a redraw delay of 100 ms.
pub fn new_builder() -> (r: ExecutorBuilder<Unprovided>)
    ensures
        r.wf(),
        r.spec_delay() == 100,
        r.spec_state() == (Unprovided),
{
    ExecutorBuilder { maze_state: Unprovided, delay: 100 }
}

impl<MS: MazeState> ExecutorBuilder<MS> {
    /// The configured delay between terminal redraws, in milliseconds.
    pub closed spec fn spec_delay(&self) -> u64 {
        self.delay
    }

    /// Whether the held maze source is well-formed.
    pub closed spec fn wf(&self) -> bool {
        self.maze_state.wf()
    }

    /// The maze source held by the builder.
    pub closed spec fn spec_state(&self) -> MS {
        self.maze_state
    }

    /// Provide a specific maze for the execution.
    pub fn maze(self, maze: Maze) -> (r: ExecutorBuilder<Provided>)
        requires
            maze.wf(),
        ensures
            r.wf(),
            r.spec_delay() == self.spec_delay(),
            r.spec_state().spec_maze() == maze,
    {
        let ExecutorBuilder { delay, maze_state: _ } = self;
        ExecutorBuilder { delay, maze_state: Provided::new(maze) }
    }

    /// Provide a generator to generate a maze for the execution.
    pub fn generated<G: MazeGenerator>(self, generator: G) -> (r: ExecutorBuilder<Generated<G>>)
        requires
            generator.wf(),
        ensures
            r.wf(),
            r.spec_delay() == self.spec_delay(),
            r.spec_state().spec_generator() == generator,
    {
        let ExecutorBuilder { delay, maze_state: _ } = self;
        ExecutorBuilder { delay, maze_state: Generated::new(generator) }
    }

    /// Sets the delay between terminal redraws; the default is 100 ms.
    pub fn delay_ms(self, delay: u64) -> (r: Self)
        ensures
            r.spec_delay() == delay,
            r.wf() == self.wf(),
            r.spec_state() == self.spec_state(),
    {
        let ExecutorBuilder { maze_state, delay: _ } = self;
        ExecutorBuilder { maze_state, delay }
    }
}

impl<MS: BuildableMazeState> ExecutorBuilder<MS> {
    /// Takes the maze out of the builder, together with the configured
    /// redraw delay in milliseconds.
    pub fn build(self) -> (r: (Maze, u64))
        requires
            self.wf(),
        ensures
            r.0.wf(),
            r.1 == self.spec_delay(),
            self.spec_state().yields(r.0),
    {
        let ExecutorBuilder { maze_state, delay } = self;
        (maze_state.get(), delay)
    }
}

} // verus!

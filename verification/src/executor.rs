//! The [`Executor`]: drives an [`Algorithm`] over a [`Maze`], one
//! insight/guess exchange per step, until the end cell is reached.

use vstd::prelude::*;

use crate::algorithm::Algorithm;
use crate::error::SolveError;
use crate::labyrinth::{contains_pos, Maze, MazeView};
use crate::position::Pos;

pub mod builder;

verus! {

broadcast use crate::labyrinth::Maze::lemma_wf_view, vstd::seq_lib::lemma_seq_contains_after_push;

/// A guess passed back to the [`Executor`] at the end of every
/// `progress` call: a candidate path whose last element is the newly
/// proposed frontier cell.
pub struct Guess(Vec<Pos>);

impl View for Guess {
    type V = Seq<Pos>;

    closed spec fn view(&self) -> Seq<Pos> {
        self.0@
    }
}

/// An insight given to the [`Algorithm`] on every `progress` call: on
/// the first call it describes the starting cell, on every later call
/// the tail of the previous guess, together with the cells directly
/// reachable from it.
pub struct Insight {
    position: Pos,
    paths: Vec<Pos>,
}

impl Insight {
    /// The revealed position, as a spec-level value.
    pub closed spec fn spec_position(&self) -> Pos {
        self.position
    }

    /// The open passages leading out of the revealed position, as a
    /// spec-level value.
    pub closed spec fn spec_paths(&self) -> Seq<Pos> {
        self.paths@
    }

    fn new(position: Pos, paths: Vec<Pos>) -> (r: Self)
        ensures
            r.spec_position() == position,
            r.spec_paths() == paths@,
    {
        Insight { position, paths }
    }

    /// The position of the insight.
    pub fn position(&self) -> (r: Pos)
        ensures
            r == self.spec_position(),
    {
        self.position
    }

    /// The paths leading out of that position.
    pub fn paths(&self) -> (r: &Vec<Pos>)
        ensures
            r@ == self.spec_paths(),
    {
        &self.paths
    }
}

/// A context given to the [`Algorithm`] on every `progress` call:
/// maze-level facts plus the factory for [`Guess`] values.
pub struct Context<'m> {
    maze: &'m Maze,
}

impl<'m> Context<'m> {
    /// The model of the maze this context describes.
    pub closed spec fn spec_maze(&self) -> MazeView {
        (*self.maze)@
    }

    fn new(maze: &'m Maze) -> (r: Self)
        ensures
            r.spec_maze() == maze@,
    {
        Context { maze }
    }

    /// Constructor for [`Guess`]. Takes a path: a vector of positions
    /// leading to the cell to reveal on the next call to `progress`.
    pub fn guess(&self, pos: Vec<Pos>) -> (r: Guess)
        ensures
            r@ == pos@,
    {
        Guess(pos)
    }

    /// The position of the start of the maze.
    pub fn start(&self) -> (r: Pos)
        ensures
            r == self.spec_maze().start,
    {
        self.maze.start()
    }

    /// The position of the end of the maze.
    pub fn end(&self) -> (r: Pos)
        ensures
            r == self.spec_maze().end,
    {
        self.maze.end()
    }

    /// The width of the maze.
    pub fn width(&self) -> (r: isize)
        ensures
            r == self.spec_maze().width,
    {
        self.maze.width()
    }

    /// The height of the maze.
    pub fn height(&self) -> (r: isize)
        ensures
            r == self.spec_maze().height,
    {
        self.maze.height()
    }

    /// A tuple containing both the width and the height of the maze.
    pub fn size(&self) -> (r: (isize, isize))
        ensures
            r.0 == self.spec_maze().width,
            r.1 == self.spec_maze().height,
    {
        self.maze.size()
    }
}

/// Copies a vector of positions element by element.
pub(crate) fn copy_positions(v: &Vec<Pos>) -> (r: Vec<Pos>)
    ensures
        r@ == v@,
{
    let mut r: Vec<Pos> = Vec::new();
    let mut k: usize = 0;
    while k < v.len()
        invariant
            0 <= k <= v@.len(),
            r@ == v@.take(k as int),
        decreases v@.len() - k,
    {
        r.push(v[k]);
        proof {
            assert(v@.take(k + 1) =~= v@.take(k as int).push(v@[k as int]));
        }
        k = k + 1;
    }
    proof {
        assert(v@.take(v@.len() as int) =~= v@);
    }
    r
}

/// A structure holding a [`Maze`] and iteratively solving it with a
/// provided [`Algorithm`].
pub struct Executor<A: Algorithm> {
    maze: Maze,
    algorithm: A,
    current: Pos,
    tried: Vec<Pos>,
}

impl<A: Algorithm> View for Executor<A> {
    type V = MazeView;

    /// The model of the maze being solved.
    closed spec fn view(&self) -> MazeView {
        self.maze@
    }
}

impl<A: Algorithm> Executor<A> {
    /// The executor invariant: the maze is well-formed, the frontier is
    /// an in-bounds cell, and the algorithm's own invariant holds.
    pub closed spec fn inv(&self) -> bool {
        &&& self.maze.wf()
        &&& self@.inside(self.spec_current())
        &&& self.algorithm.inv()
    }

    /// The frontier: the cell the next insight will describe.
    pub closed spec fn spec_current(&self) -> Pos {
        self.current
    }

    /// The cells recorded as tried so far, for visualization.
    pub closed spec fn spec_tried(&self) -> Seq<Pos> {
        self.tried@
    }

    /// Whether the solve is finished: the frontier is the end cell.
    pub open spec fn done(&self) -> bool {
        self.spec_current() == self.view().end
    }

    /// Constructor: solving starts at the maze's start cell.
    pub fn new(maze: Maze, algorithm: A) -> (r: Self)
        requires
            maze.wf(),
            algorithm.inv(),
        ensures
            r.inv(),
            r@ == maze@,
            r.spec_current() == maze@.start,
            r.spec_tried() == Seq::<Pos>::empty(),
    {
        let current = maze.start();
        Executor { maze, algorithm, current, tried: Vec::new() }
    }

    /// A read-only view of the maze being solved.
    pub fn maze(&self) -> (r: &Maze)
        requires
            self.inv(),
        ensures
            r@ == self@,
            r.wf(),
    {
        &self.maze
    }

    /// The cells recorded as tried so far, in first-tried order.
    pub fn tried(&self) -> (r: &Vec<Pos>)
        ensures
            r@ == self.spec_tried(),
    {
        &self.tried
    }

    /// The current frontier cell.
    pub fn current(&self) -> (r: Pos)
        ensures
            r == self.spec_current(),
    {
        self.current
    }

    /// Runs one insight/guess exchange: reveals the frontier's open
    /// neighbors to the algorithm, validates the returned guess (it must
    /// be non-empty and step only through in-bounds, open passages), and
    /// moves the frontier to the guess's last cell. Returns the guessed
    /// path, or `None` when the frontier already is the end cell; in
    /// that case the algorithm is not consulted at all.
    pub fn step(&mut self) -> (r: Result<Option<Vec<Pos>>, SolveError>)
        requires
            old(self).inv(),
        ensures
            final(self).inv(),
            final(self)@ == old(self)@,
            old(self).done() ==> r matches Ok(None),
            match r {
                Ok(path_opt) => match path_opt {
                    Some(path) => {
                        &&& !old(self).done()
                        &&& path@.len() > 0
                        &&& final(self).spec_current() == path@.last()
                        &&& forall|k: int|
                            0 <= k < path@.len() - 1 ==> #[trigger] old(self)@.has_passage(
                                path@[k],
                                path@[k + 1],
                            )
                        &&& forall|k: int|
                            0 <= k < path@.len() ==> final(self).spec_tried().contains(
                                #[trigger] path@[k],
                            )
                        &&& forall|p: Pos|
                            #[trigger] old(self).spec_tried().contains(p)
                                ==> final(self).spec_tried().contains(p)
                        &&& forall|p: Pos|
                            #[trigger] final(self).spec_tried().contains(p) ==> old(
                                self,
                            ).spec_tried().contains(p) || path@.contains(p)
                    },
                    None => old(self).done() && *final(self) == *old(self),
                },
                Err(_) => {
                    &&& final(self).spec_current() == old(self).spec_current()
                    &&& final(self).spec_tried() == old(self).spec_tried()
                },
            },
    {
        let current = self.current;
        if self.maze.is_end(current) {
            return Ok(None);
        }
        let paths = match self.maze.paths_from(current) {
            Ok(v) => copy_positions(v),
            Err(_) => {
                proof {
                    assert(false);
                }
                vstd::pervasive::unreached()
            },
        };
        let insight = Insight::new(current, paths);
        let mut ctx = Context::new(&self.maze);
        let guess = match self.algorithm.progress(&insight, &mut ctx) {
            Ok(g) => g,
            Err(e) => {
                return Err(e);
            },
        };
        let Guess(path) = guess;
        if path.len() == 0 {
            return Err(SolveError::EmptyGuess);
        }
        // the guess must stay inside the rectangle
        let mut k: usize = 0;
        while k < path.len()
            invariant
                !old(self).done(),
                self.inv(),
                self@ == old(self)@,
                self.spec_current() == old(self).spec_current(),
                self.spec_tried() == old(self).spec_tried(),
                0 <= k <= path@.len(),
                forall|k2: int| 0 <= k2 < k ==> self.maze@.inside(#[trigger] path@[k2]),
            decreases path@.len() - k,
        {
            if !self.maze.is_inside(path[k]) {
                return Err(SolveError::IllegalMove);
            }
            k = k + 1;
        }
        // the guess must step only through open passages
        let mut k: usize = 1;
        while k < path.len()
            invariant
                !old(self).done(),
                self.inv(),
                self@ == old(self)@,
                self.spec_current() == old(self).spec_current(),
                self.spec_tried() == old(self).spec_tried(),
                path@.len() > 0,
                1 <= k <= path@.len(),
                forall|k2: int| 0 <= k2 < path@.len() ==> self.maze@.inside(#[trigger] path@[k2]),
                forall|k2: int|
                    0 <= k2 < k - 1 ==> #[trigger] self.maze@.has_passage(
                        path@[k2],
                        path@[k2 + 1],
                    ),
            decreases path@.len() - k,
        {
            let walled = match self.maze.is_walled(path[k - 1], path[k]) {
                Ok(w) => w,
                Err(_) => {
                    proof {
                        assert(false);
                    }
                    vstd::pervasive::unreached()
                },
            };
            if walled {
                return Err(SolveError::IllegalMove);
            }
            k = k + 1;
        }
        // record every guessed cell as tried, for visualization
        let mut k: usize = 0;
        while k < path.len()
            invariant
                0 <= k <= path@.len(),
                forall|k2: int| 0 <= k2 < k ==> self.tried@.contains(#[trigger] path@[k2]),
                forall|p: Pos|
                    #[trigger] old(self).spec_tried().contains(p) ==> self.tried@.contains(p),
                forall|p: Pos|
                    #[trigger] self.tried@.contains(p) ==> old(self).spec_tried().contains(p)
                        || path@.contains(p),
                self.inv(),
                self@ == old(self)@,
                self.spec_current() == old(self).spec_current(),
                forall|k2: int| 0 <= k2 < path@.len() ==> self.maze@.inside(#[trigger] path@[k2]),
            decreases path@.len() - k,
        {
            let ghost tried_prev = self.tried@;
            if !contains_pos(&self.tried, path[k]) {
                self.tried.push(path[k]);
            }
            proof {
                assert forall|k2: int|
                    0 <= k2 < k + 1 implies self.tried@.contains(#[trigger] path@[k2]) by {
                    if k2 < k {
                        assert(tried_prev.contains(path@[k2]));
                        if self.tried@ != tried_prev {
                            assert(self.tried@ == tried_prev.push(path@[k as int]));
                        }
                    }
                }
                assert forall|p: Pos| #[trigger]
                    self.tried@.contains(p) implies old(self).spec_tried().contains(p)
                    || path@.contains(p) by {
                    if !tried_prev.contains(p) {
                        assert(self.tried@ == tried_prev.push(path@[k as int]));
                        assert(p == path@[k as int]);
                    }
                }
            }
            k = k + 1;
        }
        let tail = path[path.len() - 1];
        self.current = tail;
        Ok(Some(path))
    }

    /// Drives the algorithm until the frontier reaches the end cell,
    /// and returns how many insight/guess exchanges were needed: zero
    /// when the start already is the end (the algorithm is then never
    /// consulted). An exchange budget of four times the number of cells
    /// bounds the loop; a run that exceeds it has revisited cells over
    /// and over and is reported as exhausted.
    pub fn run(&mut self) -> (r: Result<u64, SolveError>)
        requires
            old(self).inv(),
        ensures
            final(self).inv(),
            final(self)@ == old(self)@,
            old(self).done() ==> r == Ok::<u64, SolveError>(0),
            match r {
                Ok(n) => final(self).done(),
                Err(_) => true,
            },
    {
        proof {
            assert(1 * 1 <= self@.width * self@.height <= 0x4000 * 0x4000int) by (nonlinear_arith)
                requires
                    1 <= self@.width <= 0x4000,
                    1 <= self@.height <= 0x4000,
            ;
        }
        let cells: u64 = (self.maze.width() as u64) * (self.maze.height() as u64);
        let fuel: u64 = 4 * cells + 4;
        let mut steps: u64 = 0;
        while steps < fuel
            invariant
                self.inv(),
                self@ == old(self)@,
                steps <= fuel,
                fuel <= 0x7000_0000_0000_0000,
                old(self).done() ==> steps == 0 && self.done() && *self == *old(self),
            decreases fuel - steps,
        {
            match self.step() {
                Ok(None) => {
                    return Ok(steps);
                },
                Ok(Some(_)) => {
                    steps = steps + 1;
                },
                Err(e) => {
                    return Err(e);
                },
            }
        }
        Err(SolveError::Exhausted)
    }
}

} // verus!

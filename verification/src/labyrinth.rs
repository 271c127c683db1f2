//! The [`Maze`] data structure: a grid graph whose edges are the open
//! passages between grid-adjacent cells.

use vstd::prelude::*;

use crate::error::MazeError;
use crate::position::{Pos, MAX_DIM};

verus! {

broadcast use vstd::seq_lib::lemma_seq_contains_after_push, vstd::seq_lib::lemma_seq_empty_contains_nothing;

/// Whether a position lies inside a `width x height` rectangle anchored
/// at the origin.
pub open spec fn inside_rect(width: int, height: int, p: Pos) -> bool {
    0 <= p.0 < width && 0 <= p.1 < height
}

/// Whether the passage request list asks for a passage from `p` to `q`.
pub open spec fn requested(l: Seq<(Pos, Vec<Pos>)>, p: Pos, q: Pos) -> bool {
    exists|i: int, j: int|
        0 <= i < l.len() && 0 <= j < l[i].1@.len() && l[i].0 == p && #[trigger] l[i].1@[j] == q
}

/// Whether every cell mentioned by the passage request list lies inside
/// the rectangle.
pub open spec fn all_cells_inside(l: Seq<(Pos, Vec<Pos>)>, width: int, height: int) -> bool {
    forall|i: int|
        0 <= i < l.len() ==> inside_rect(width, height, (#[trigger] l[i]).0) && (forall|j: int|
            0 <= j < l[i].1@.len() ==> inside_rect(width, height, #[trigger] l[i].1@[j]))
}

/// Whether every requested passage connects two grid-adjacent cells.
pub open spec fn all_pairs_adjacent(l: Seq<(Pos, Vec<Pos>)>) -> bool {
    forall|i: int, j: int|
        0 <= i < l.len() && 0 <= j < l[i].1@.len() ==> grid_adjacent(
            l[i].0,
            #[trigger] l[i].1@[j],
        )
}

/// The cells the first `j` requested passages of one request entry
/// append to `p`'s adjacency list, in request order: opening a passage
/// appends the far end to both endpoint cells' lists.
pub open spec fn entry_appends(e: (Pos, Vec<Pos>), p: Pos, j: int) -> Seq<Pos>
    decreases j,
{
    if j <= 0 {
        Seq::empty()
    } else {
        entry_appends(e, p, j - 1) + (if e.0 == p {
            seq![e.1@[j - 1]]
        } else {
            Seq::<Pos>::empty()
        }) + (if e.1@[j - 1] == p {
            seq![e.0]
        } else {
            Seq::<Pos>::empty()
        })
    }
}

/// The full adjacency list of `p` once the request list is processed in
/// order, entry by entry.
pub open spec fn opened_appends(l: Seq<(Pos, Vec<Pos>)>, p: Pos) -> Seq<Pos>
    decreases l.len(),
{
    if l.len() == 0 {
        Seq::empty()
    } else {
        opened_appends(l.drop_last(), p) + entry_appends(l.last(), p, l.last().1@.len() as int)
    }
}

/// The overlay character standing at cell `p`: the character of the last
/// overlay pair naming `p`, if any.
pub open spec fn overlay_char(ov: Seq<(Pos, char)>, p: Pos) -> Option<char>
    decreases ov.len(),
{
    if ov.len() == 0 {
        None
    } else if ov.last().0 == p {
        Some(ov.last().1)
    } else {
        overlay_char(ov.drop_last(), p)
    }
}

/// Whether two cells are orthogonal neighbors on the grid (no diagonals,
/// no teleports, never the cell itself).
pub open spec fn grid_adjacent(a: Pos, b: Pos) -> bool {
    ||| (a.0 == b.0 && (b.1 == a.1 + 1 || b.1 == a.1 - 1))
    ||| (a.1 == b.1 && (b.0 == a.0 + 1 || b.0 == a.0 - 1))
}

/// The mathematical model of a [`Maze`]: its rectangle, its two
/// distinguished cells, and the adjacency map from each cell of the
/// rectangle to the ordered sequence of cells reachable from it.
pub ghost struct MazeView {
    pub width: int,
    pub height: int,
    pub start: Pos,
    pub end: Pos,
    pub adj: Map<Pos, Seq<Pos>>,
}

impl MazeView {
    /// Whether a position lies inside the rectangle.
    pub open spec fn inside(self, p: Pos) -> bool {
        0 <= p.0 < self.width && 0 <= p.1 < self.height
    }

    /// Number of cells of the rectangle.
    pub open spec fn cells(self) -> int {
        self.width * self.height
    }

    /// Whether there is an open passage leading from `a` to `b`.
    pub open spec fn has_passage(self, a: Pos, b: Pos) -> bool {
        self.inside(a) && self.adj[a].contains(b)
    }

    /// The maze invariant: dimensions in range, `start` and `end` inside
    /// the rectangle, adjacency entries only between in-bounds
    /// grid-adjacent cells, and adjacency symmetric.
    pub open spec fn wf(self) -> bool {
        &&& 1 <= self.width <= MAX_DIM as int
        &&& 1 <= self.height <= MAX_DIM as int
        &&& self.inside(self.start)
        &&& self.inside(self.end)
        &&& forall|p: Pos, q: Pos|
            self.inside(p) && #[trigger] self.adj[p].contains(q) ==> self.inside(q)
                && grid_adjacent(p, q)
        &&& forall|p: Pos, q: Pos|
            self.inside(p) && self.inside(q) ==> (#[trigger] self.adj[p].contains(q)
                <==> #[trigger] self.adj[q].contains(p))
    }

    /// The in-bounds orthogonal neighbors of `p`, in the relative order
    /// left, right, up, down.
    pub open spec fn adjacent_seq(self, p: Pos) -> Seq<Pos> {
        let left = Pos((p.0 - 1) as isize, p.1);
        let right = Pos((p.0 + 1) as isize, p.1);
        let up = Pos(p.0, (p.1 - 1) as isize);
        let down = Pos(p.0, (p.1 + 1) as isize);
        (if self.inside(left) {
            seq![left]
        } else {
            Seq::<Pos>::empty()
        }) + (if self.inside(right) {
            seq![right]
        } else {
            Seq::<Pos>::empty()
        }) + (if self.inside(up) {
            seq![up]
        } else {
            Seq::<Pos>::empty()
        }) + (if self.inside(down) {
            seq![down]
        } else {
            Seq::<Pos>::empty()
        })
    }

    /// No simple cycle runs through the open passages: a walk that
    /// returns to its starting cell without repeating any other cell
    /// cannot span three or more cells.
    pub open spec fn acyclic(self) -> bool {
        forall|s: Seq<Pos>|
            !(#[trigger] self.is_path(s) && s.len() >= 4 && s.first() == s.last()
                && s.drop_last().no_duplicates())
    }

    /// A walk through open passages: non-empty, and every consecutive
    /// pair of cells is connected by a passage.
    pub open spec fn is_path(self, s: Seq<Pos>) -> bool {
        &&& s.len() > 0
        &&& forall|i: int| 0 <= i < s.len() - 1 ==> #[trigger] self.has_passage(s[i], s[i + 1])
    }

    /// Whether `b` can be reached from `a` through open passages.
    pub open spec fn reachable(self, a: Pos, b: Pos) -> bool {
        exists|s: Seq<Pos>| #[trigger] self.is_path(s) && s.first() == a && s.last() == b
    }

    /// The cell standing at a given cell index (row-major order).
    pub open spec fn cell_of(self, i: int) -> Pos {
        Pos((i % self.width) as isize, (i / self.width) as isize)
    }

    /// The row-major index of a cell.
    pub open spec fn index_of(self, p: Pos) -> int {
        p.1 * self.width + p.0
    }

    /// Sum of the adjacency-list lengths of the first `n` cells.
    pub open spec fn degree_sum_upto(self, n: int) -> int
        decreases n,
    {
        if n <= 0 {
            0
        } else {
            self.degree_sum_upto(n - 1) + self.adj[self.cell_of(n - 1)].len()
        }
    }

    /// Sum of all adjacency-list lengths; each undirected passage is
    /// counted twice in this total.
    pub open spec fn degree_total(self) -> int {
        self.degree_sum_upto(self.cells())
    }

    /// The row-major index of an in-bounds cell lies below `cells()`,
    /// and `cell_of` undoes `index_of`.
    pub proof fn lemma_index_of_inside(self, p: Pos)
        requires
            1 <= self.width,
            1 <= self.height,
            self.inside(p),
        ensures
            0 <= self.index_of(p) < self.cells(),
            self.cell_of(self.index_of(p)) == p,
    {
        assert(0 <= p.1 * self.width + p.0 < self.width * self.height) by (nonlinear_arith)
            requires
                0 <= p.0 < self.width,
                0 <= p.1 < self.height,
                1 <= self.width,
                1 <= self.height,
        ;
        vstd::arithmetic::div_mod::lemma_fundamental_div_mod_converse(
            p.1 * self.width + p.0,
            self.width,
            p.1 as int,
            p.0 as int,
        );
    }

    /// The cell standing at any index below `cells()` is an in-bounds
    /// cell, and `index_of` undoes `cell_of`.
    pub proof fn lemma_cell_of_inside(self, i: int)
        requires
            1 <= self.width <= MAX_DIM as int,
            1 <= self.height <= MAX_DIM as int,
            0 <= i < self.cells(),
        ensures
            self.inside(self.cell_of(i)),
            self.index_of(self.cell_of(i)) == i,
    {
        vstd::arithmetic::div_mod::lemma_fundamental_div_mod(i, self.width);
        vstd::arithmetic::div_mod::lemma_mod_bound(i, self.width);
        assert(0 <= i / self.width < self.height) by (nonlinear_arith)
            requires
                0 <= i < self.width * self.height,
                1 <= self.width,
                1 <= self.height,
                i == self.width * (i / self.width) + (i % self.width),
                0 <= i % self.width < self.width,
        ;
        let x = i % self.width;
        let y = i / self.width;
        assert(((x as isize) as int) == x);
        assert(((y as isize) as int) == y);
        assert(self.index_of(self.cell_of(i)) == y * self.width + x);
        assert(y * self.width + x == i) by (nonlinear_arith)
            requires
                i == self.width * y + x,
        ;
    }

    /// Summing adjacency lengths over a maze without passages gives zero.
    pub proof fn lemma_degree_sum_bare(self, n: int)
        requires
            1 <= self.width <= MAX_DIM as int,
            1 <= self.height <= MAX_DIM as int,
            0 <= n <= self.cells(),
            forall|p: Pos| self.inside(p) ==> (#[trigger] self.adj[p]).len() == 0,
        ensures
            self.degree_sum_upto(n) == 0,
        decreases n,
    {
        if n > 0 {
            self.lemma_cell_of_inside(n - 1);
            self.lemma_degree_sum_bare(n - 1);
        }
    }

    /// Lengthening exactly one in-bounds cell's adjacency list by one
    /// raises the degree sum by one, once the sum ranges past that cell.
    pub proof fn lemma_degree_sum_update(self, other: MazeView, c: Pos, n: int)
        requires
            other.width == self.width,
            other.height == self.height,
            1 <= self.width <= MAX_DIM as int,
            1 <= self.height <= MAX_DIM as int,
            self.inside(c),
            other.adj[c].len() == self.adj[c].len() + 1,
            forall|p: Pos| self.inside(p) && p != c ==> #[trigger] other.adj[p] == self.adj[p],
            0 <= n <= self.cells(),
        ensures
            other.degree_sum_upto(n) == self.degree_sum_upto(n) + (if self.index_of(c) < n {
                1int
            } else {
                0int
            }),
        decreases n,
    {
        self.lemma_index_of_inside(c);
        if n > 0 {
            self.lemma_degree_sum_update(other, c, n - 1);
            self.lemma_cell_of_inside(n - 1);
            assert(other.cell_of(n - 1) == self.cell_of(n - 1));
            if self.cell_of(n - 1) == c {
                assert(self.index_of(c) == n - 1);
            }
        }
    }

    /// A cell is reachable from itself.
    pub proof fn lemma_reachable_refl(self, a: Pos)
        ensures
            self.reachable(a, a),
    {
        let s = seq![a];
        assert(self.is_path(s));
        assert(s.first() == a && s.last() == a);
    }

    /// Reachability extends along one more open passage.
    pub proof fn lemma_reachable_step(self, a: Pos, b: Pos, c: Pos)
        requires
            self.reachable(a, b),
            self.has_passage(b, c),
        ensures
            self.reachable(a, c),
    {
        let s = choose|s: Seq<Pos>| #[trigger] self.is_path(s) && s.first() == a && s.last() == b;
        let s2 = s.push(c);
        assert(self.is_path(s2)) by {
            assert forall|i: int| 0 <= i < s2.len() - 1 implies #[trigger] self.has_passage(
                s2[i],
                s2[i + 1],
            ) by {
                if i < s.len() - 1 {
                    assert(s2[i] == s[i]);
                    assert(s2[i + 1] == s[i + 1]);
                    assert(self.has_passage(s[i], s[i + 1]));
                } else {
                    assert(s2[i] == s.last());
                    assert(s2[i + 1] == c);
                }
            }
        }
        assert(s2.first() == a && s2.last() == c);
    }

    /// Opening more passages never breaks reachability.
    pub proof fn lemma_reachable_monotone(self, other: MazeView, a: Pos, b: Pos)
        requires
            self.reachable(a, b),
            forall|p: Pos, q: Pos| #[trigger] self.has_passage(p, q) ==> other.has_passage(p, q),
        ensures
            other.reachable(a, b),
    {
        let s = choose|s: Seq<Pos>| #[trigger] self.is_path(s) && s.first() == a && s.last() == b;
        assert(other.is_path(s)) by {
            assert forall|i: int| 0 <= i < s.len() - 1 implies #[trigger] other.has_passage(
                s[i],
                s[i + 1],
            ) by {
                assert(self.has_passage(s[i], s[i + 1]));
            }
        }
    }

    /// The character of the rendered text grid at `row`, `col`. The
    /// rendering is double-resolution: each cell occupies the center
    /// character at odd coordinates, each adjacency gap a wall-or-open
    /// character, with corner dots at every even-even intersection.
    pub open spec fn glyph(self, ov: Seq<(Pos, char)>, row: int, col: int) -> char {
        if row % 2 == 0 && col % 2 == 0 {
            '\u{2022}'
        } else if row % 2 == 1 && col % 2 == 1 {
            let cell = Pos(((col - 1) / 2) as isize, ((row - 1) / 2) as isize);
            match overlay_char(ov, cell) {
                Some(c) => c,
                None => ' ',
            }
        } else if row % 2 == 1 {
            if col == 0 || col == 2 * self.width {
                '\u{2502}'
            } else {
                let right = Pos((col / 2) as isize, ((row - 1) / 2) as isize);
                let left = Pos((col / 2 - 1) as isize, ((row - 1) / 2) as isize);
                if self.has_passage(left, right) {
                    ' '
                } else {
                    '\u{2502}'
                }
            }
        } else {
            if row == 0 || row == 2 * self.height {
                '\u{2500}'
            } else {
                let lower = Pos(((col - 1) / 2) as isize, (row / 2) as isize);
                let upper = Pos(((col - 1) / 2) as isize, (row / 2 - 1) as isize);
                if self.has_passage(upper, lower) {
                    ' '
                } else {
                    '\u{2500}'
                }
            }
        }
    }
}

/// Data structure representing a maze on a grid: for every cell of the
/// `width x height` rectangle it stores the ordered list of cells directly
/// accessible from it, plus the `start` and `end` cells.
#[derive(Debug, Clone)]
pub struct Maze {
    width: isize,
    height: isize,
    start: Pos,
    end: Pos,
    paths: Vec<Vec<Pos>>,
}

impl View for Maze {
    type V = MazeView;

    closed spec fn view(&self) -> MazeView {
        MazeView {
            width: self.width as int,
            height: self.height as int,
            start: self.start,
            end: self.end,
            adj: Map::new(
                |p: Pos| 0 <= p.0 < self.width && 0 <= p.1 < self.height,
                |p: Pos| self.paths@[p.1 * self.width + p.0]@,
            ),
        }
    }
}

impl Maze {
    /// The representation invariant: the adjacency vector has one entry
    /// per cell of the rectangle, and the model is well-formed.
    pub closed spec fn wf(&self) -> bool {
        &&& self.paths@.len() == self.width * self.height
        &&& self@.wf()
    }

    /// A well-formed maze has a well-formed model.
    pub broadcast proof fn lemma_wf_view(m: &Maze)
        requires
            #[trigger] m.wf(),
        ensures
            m@.wf(),
    {
    }

    proof fn lemma_index_inside(&self, p: Pos)
        requires
            1 <= self@.width <= MAX_DIM as int,
            1 <= self@.height <= MAX_DIM as int,
            self@.inside(p),
        ensures
            0 <= self@.index_of(p) < self@.cells(),
            self@.cell_of(self@.index_of(p)) == p,
    {
        let w = self@.width;
        let h = self@.height;
        assert(0 <= p.1 * w + p.0 < w * h) by (nonlinear_arith)
            requires
                0 <= p.0 < w,
                0 <= p.1 < h,
                1 <= w,
                1 <= h,
        ;
        vstd::arithmetic::div_mod::lemma_fundamental_div_mod_converse(
            p.1 * w + p.0,
            w,
            p.1 as int,
            p.0 as int,
        );
    }

    proof fn lemma_index_injective(&self, p: Pos, q: Pos)
        requires
            1 <= self@.width <= MAX_DIM as int,
            1 <= self@.height <= MAX_DIM as int,
            self@.inside(p),
            self@.inside(q),
            self@.index_of(p) == self@.index_of(q),
        ensures
            p == q,
    {
        self.lemma_index_inside(p);
        self.lemma_index_inside(q);
    }

    proof fn lemma_index_distinct(&self, p: Pos, q: Pos)
        requires
            1 <= self@.width <= MAX_DIM as int,
            1 <= self@.height <= MAX_DIM as int,
            self@.inside(p),
            self@.inside(q),
            p != q,
        ensures
            self@.index_of(p) != self@.index_of(q),
    {
        if self@.index_of(p) == self@.index_of(q) {
            self.lemma_index_injective(p, q);
        }
    }

    /// Row-major index of an in-bounds cell in the adjacency vector.
    fn index_of(&self, p: Pos) -> (i: usize)
        requires
            self.wf(),
            self@.inside(p),
        ensures
            i == self@.index_of(p),
            i < self.paths@.len(),
    {
        proof {
            self.lemma_index_inside(p);
            assert(0 <= p.1 * self.width && p.1 * self.width + p.0 < 0x1000_0000int)
                by (nonlinear_arith)
                requires
                    0 <= p.0 < self.width as int,
                    0 <= p.1 < self.height as int,
                    1 <= self.width as int <= 0x4000,
                    1 <= self.height as int <= 0x4000,
            ;
        }
        (p.1 * self.width + p.0) as usize
    }

    /// Builds a maze where every cell of the rectangle initially has no
    /// passage, then opens each requested passage symmetrically. The
    /// whole request list is validated before any passage is opened.
    pub fn new(
        width: isize,
        height: isize,
        start: Pos,
        end: Pos,
        paths_: Vec<(Pos, Vec<Pos>)>,
    ) -> (r: Result<Maze, MazeError>)
        ensures
            match r {
                Ok(m) => {
                    &&& m.wf()
                    &&& m@.width == width as int
                    &&& m@.height == height as int
                    &&& m@.start == start
                    &&& m@.end == end
                    &&& all_cells_inside(paths_@, width as int, height as int)
                    &&& all_pairs_adjacent(paths_@)
                    &&& forall|p: Pos, q: Pos| #[trigger]
                        requested(paths_@, p, q) ==> m@.has_passage(p, q) && m@.has_passage(q, p)
                    &&& forall|p: Pos, q: Pos| #[trigger]
                        m@.has_passage(p, q) ==> requested(paths_@, p, q) || requested(
                            paths_@,
                            q,
                            p,
                        )
                    &&& forall|c: Pos|
                        m@.inside(c) ==> #[trigger] m@.adj[c] == opened_appends(paths_@, c)
                },
                Err(e) => {
                    &&& (e == MazeError::InvalidSize || e == MazeError::OutOfBounds || e
                        == MazeError::NotAdjacent)
                    &&& (e == MazeError::InvalidSize <==> !(1 <= width <= MAX_DIM && 1 <= height
                        <= MAX_DIM))
                    &&& (e == MazeError::OutOfBounds <==> (1 <= width <= MAX_DIM && 1 <= height
                        <= MAX_DIM) && !(inside_rect(width as int, height as int, start)
                        && inside_rect(width as int, height as int, end) && all_cells_inside(
                        paths_@,
                        width as int,
                        height as int,
                    )))
                    &&& (e == MazeError::NotAdjacent <==> (1 <= width <= MAX_DIM && 1 <= height
                        <= MAX_DIM) && inside_rect(width as int, height as int, start)
                        && inside_rect(width as int, height as int, end) && all_cells_inside(
                        paths_@,
                        width as int,
                        height as int,
                    ) && !all_pairs_adjacent(paths_@))
                },
            },
    {
        if !(width >= 1 && width <= MAX_DIM && height >= 1 && height <= MAX_DIM) {
            return Err(MazeError::InvalidSize);
        }
        if !(start.0 >= 0 && start.0 < width && start.1 >= 0 && start.1 < height) || !(end.0 >= 0
            && end.0 < width && end.1 >= 0 && end.1 < height) {
            return Err(MazeError::OutOfBounds);
        }
        // every referenced cell must lie inside the rectangle
        let mut i: usize = 0;
        while i < paths_.len()
            invariant
                0 <= i <= paths_@.len(),
                1 <= width <= MAX_DIM,
                1 <= height <= MAX_DIM,
                inside_rect(width as int, height as int, start),
                inside_rect(width as int, height as int, end),
                all_cells_inside(paths_@.take(i as int), width as int, height as int),
            decreases paths_@.len() - i,
        {
            let p = paths_[i].0;
            if !(p.0 >= 0 && p.0 < width && p.1 >= 0 && p.1 < height) {
                proof {
                    assert(paths_@[i as int].0 == p);
                    assert(!all_cells_inside(paths_@, width as int, height as int));
                }
                return Err(MazeError::OutOfBounds);
            }
            let mut j: usize = 0;
            while j < paths_[i].1.len()
                invariant
                    0 <= i < paths_@.len(),
                    0 <= j <= paths_@[i as int].1@.len(),
                    1 <= width <= MAX_DIM,
                    1 <= height <= MAX_DIM,
                    inside_rect(width as int, height as int, start),
                    inside_rect(width as int, height as int, end),
                    inside_rect(width as int, height as int, paths_@[i as int].0),
                    all_cells_inside(paths_@.take(i as int), width as int, height as int),
                    forall|jj: int|
                        0 <= jj < j ==> inside_rect(
                            width as int,
                            height as int,
                            #[trigger] paths_@[i as int].1@[jj],
                        ),
                decreases paths_@[i as int].1@.len() - j,
            {
                let q = paths_[i].1[j];
                if !(q.0 >= 0 && q.0 < width && q.1 >= 0 && q.1 < height) {
                    proof {
                        assert(paths_@[i as int].1@[j as int] == q);
                        assert(!all_cells_inside(paths_@, width as int, height as int));
                    }
                    return Err(MazeError::OutOfBounds);
                }
                j = j + 1;
            }
            proof {
                assert(paths_@.take(i + 1) =~= paths_@.take(i as int).push(paths_@[i as int]));
                assert forall|i2: int| 0 <= i2 < i + 1 implies inside_rect(
                    width as int,
                    height as int,
                    (#[trigger] paths_@.take(i + 1)[i2]).0,
                ) && (forall|jj: int|
                    0 <= jj < paths_@.take(i + 1)[i2].1@.len() ==> inside_rect(
                        width as int,
                        height as int,
                        #[trigger] paths_@.take(i + 1)[i2].1@[jj],
                    )) by {
                    if i2 < i {
                        assert(paths_@.take(i + 1)[i2] == paths_@.take(i as int)[i2]);
                    } else {
                        assert(paths_@.take(i + 1)[i2] == paths_@[i as int]);
                    }
                }
            }
            i = i + 1;
        }
        proof {
            assert(paths_@.take(paths_@.len() as int) =~= paths_@);
        }
        // every requested passage must connect grid-adjacent cells
        let mut i: usize = 0;
        while i < paths_.len()
            invariant
                0 <= i <= paths_@.len(),
                all_cells_inside(paths_@, width as int, height as int),
                1 <= width <= MAX_DIM,
                1 <= height <= MAX_DIM,
                inside_rect(width as int, height as int, start),
                inside_rect(width as int, height as int, end),
                forall|i2: int, j2: int|
                    0 <= i2 < i && 0 <= j2 < paths_@[i2].1@.len() ==> grid_adjacent(
                        paths_@[i2].0,
                        #[trigger] paths_@[i2].1@[j2],
                    ),
            decreases paths_@.len() - i,
        {
            let p = paths_[i].0;
            let mut j: usize = 0;
            while j < paths_[i].1.len()
                invariant
                    0 <= i < paths_@.len(),
                    0 <= j <= paths_@[i as int].1@.len(),
                    all_cells_inside(paths_@, width as int, height as int),
                    1 <= width <= MAX_DIM,
                    1 <= height <= MAX_DIM,
                    inside_rect(width as int, height as int, start),
                    inside_rect(width as int, height as int, end),
                    p == paths_@[i as int].0,
                    forall|jj: int|
                        0 <= jj < j ==> grid_adjacent(
                            paths_@[i as int].0,
                            #[trigger] paths_@[i as int].1@[jj],
                        ),
                decreases paths_@[i as int].1@.len() - j,
            {
                let q = paths_[i].1[j];
                proof {
                    assert(paths_@[i as int].1@[j as int] == q);
                    assert(inside_rect(width as int, height as int, p));
                }
                if !is_grid_adjacent(p, q) {
                    proof {
                        assert(!all_pairs_adjacent(paths_@));
                    }
                    return Err(MazeError::NotAdjacent);
                }
                j = j + 1;
            }
            i = i + 1;
        }
        // build the fully walled grid
        proof {
            assert(0 <= width * height <= 0x1000_0000) by (nonlinear_arith)
                requires
                    1 <= width as int <= 0x4000,
                    1 <= height as int <= 0x4000,
            ;
        }
        let total = (width * height) as usize;
        let mut paths: Vec<Vec<Pos>> = Vec::new();
        while paths.len() < total
            invariant
                paths@.len() <= total,
                forall|k: int| 0 <= k < paths@.len() ==> (#[trigger] paths@[k])@ == Seq::<
                    Pos,
                >::empty(),
            decreases total - paths@.len(),
        {
            let empty_cell: Vec<Pos> = Vec::new();
            proof {
                assert(empty_cell@ =~= Seq::<Pos>::empty());
            }
            paths.push(empty_cell);
        }
        let mut maze = Maze { width, height, start, end, paths };
        proof {
            assert forall|p: Pos| maze@.inside(p) implies maze@.adj[p] == Seq::<Pos>::empty() by {
                maze.lemma_index_inside(p);
            }
            assert(maze.wf());
        }
        // open the requested passages, both ways each
        proof {
            assert(paths_@.take(0).len() == 0);
            assert forall|c: Pos| maze@.inside(c) implies #[trigger] maze@.adj[c]
                == opened_appends(paths_@.take(0), c) by {
                assert(maze@.adj[c] =~= opened_appends(paths_@.take(0), c));
            }
        }
        let mut i: usize = 0;
        while i < paths_.len()
            invariant
                0 <= i <= paths_@.len(),
                maze.wf(),
                maze@.width == width as int,
                maze@.height == height as int,
                maze@.start == start,
                maze@.end == end,
                all_cells_inside(paths_@, width as int, height as int),
                all_pairs_adjacent(paths_@),
                forall|p: Pos, q: Pos| #[trigger]
                    requested(paths_@.take(i as int), p, q) ==> maze@.has_passage(p, q)
                        && maze@.has_passage(q, p),
                forall|p: Pos, q: Pos| #[trigger]
                    maze@.has_passage(p, q) ==> requested(paths_@.take(i as int), p, q)
                        || requested(paths_@.take(i as int), q, p),
                forall|c: Pos|
                    maze@.inside(c) ==> #[trigger] maze@.adj[c] == opened_appends(
                        paths_@.take(i as int),
                        c,
                    ),
            decreases paths_@.len() - i,
        {
            let p = paths_[i].0;
            proof {
                assert forall|c: Pos| maze@.inside(c) implies #[trigger] maze@.adj[c]
                    == opened_appends(paths_@.take(i as int), c) + entry_appends(
                    paths_@[i as int],
                    c,
                    0,
                ) by {
                    assert(opened_appends(paths_@.take(i as int), c) + entry_appends(
                        paths_@[i as int],
                        c,
                        0,
                    ) =~= opened_appends(paths_@.take(i as int), c));
                }
            }
            let mut j: usize = 0;
            while j < paths_[i].1.len()
                invariant
                    0 <= i < paths_@.len(),
                    0 <= j <= paths_@[i as int].1@.len(),
                    maze.wf(),
                    maze@.width == width as int,
                    maze@.height == height as int,
                    maze@.start == start,
                    maze@.end == end,
                    all_cells_inside(paths_@, width as int, height as int),
                    all_pairs_adjacent(paths_@),
                    p == paths_@[i as int].0,
                    forall|p2: Pos, q2: Pos| #[trigger]
                        requested(paths_@.take(i as int), p2, q2) ==> maze@.has_passage(p2, q2)
                            && maze@.has_passage(q2, p2),
                    forall|jj: int|
                        0 <= jj < j ==> maze@.has_passage(
                            p,
                            #[trigger] paths_@[i as int].1@[jj],
                        ) && maze@.has_passage(paths_@[i as int].1@[jj], p),
                    forall|p2: Pos, q2: Pos| #[trigger]
                        maze@.has_passage(p2, q2) ==> requested(paths_@.take(i as int), p2, q2)
                            || requested(paths_@.take(i as int), q2, p2) || (p2 == p && (exists|
                            jj: int,
                        |
                            0 <= jj < j && paths_@[i as int].1@[jj] == q2)) || (q2 == p && (exists|
                            jj: int,
                        |
                            0 <= jj < j && paths_@[i as int].1@[jj] == p2)),
                    forall|c: Pos|
                        maze@.inside(c) ==> #[trigger] maze@.adj[c] == opened_appends(
                            paths_@.take(i as int),
                            c,
                        ) + entry_appends(paths_@[i as int], c, j as int),
                decreases paths_@[i as int].1@.len() - j,
            {
                let q = paths_[i].1[j];
                proof {
                    assert(paths_@[i as int].1@[j as int] == q);
                    assert(inside_rect(width as int, height as int, p));
                    assert(inside_rect(width as int, height as int, q));
                    assert(grid_adjacent(p, q));
                }
                let ghost pre = maze@;
                match maze.create_path(p, q) {
                    Ok(()) => (),
                    Err(_) => {
                        proof {
                            assert(false);
                        }
                        vstd::pervasive::unreached()
                    },
                }
                proof {
                    assert forall|p2: Pos, q2: Pos|
                        pre.has_passage(p2, q2) implies #[trigger] maze@.has_passage(p2, q2) by {
                        assert(maze@.adj[p2].contains(q2));
                    }
                    assert(maze@.has_passage(p, q));
                    assert(maze@.has_passage(q, p));
                    assert forall|p2: Pos, q2: Pos| #[trigger]
                        maze@.has_passage(p2, q2) implies pre.has_passage(p2, q2) || (p2 == p && q2
                        == q) || (p2 == q && q2 == p) by {
                        if p2 != p && p2 != q {
                            assert(maze@.adj[p2] == pre.adj[p2]);
                        }
                    }
                    assert forall|c: Pos| maze@.inside(c) implies #[trigger] maze@.adj[c]
                        == opened_appends(paths_@.take(i as int), c) + entry_appends(
                        paths_@[i as int],
                        c,
                        j + 1,
                    ) by {
                        let e = paths_@[i as int];
                        let base = opened_appends(paths_@.take(i as int), c);
                        let before = entry_appends(e, c, j as int);
                        assert(e.0 == p && e.1@[j as int] == q);
                        assert(p != q);
                        if c == p {
                            assert(maze@.adj[c] == pre.adj[c].push(q));
                            assert(pre.adj[c] == base + before);
                            assert(entry_appends(e, c, j + 1) =~= before + seq![q]);
                            assert((base + before).push(q) =~= base + (before + seq![q]));
                        } else if c == q {
                            assert(maze@.adj[c] == pre.adj[c].push(p));
                            assert(pre.adj[c] == base + before);
                            assert(entry_appends(e, c, j + 1) =~= before + seq![p]);
                            assert((base + before).push(p) =~= base + (before + seq![p]));
                        } else {
                            assert(maze@.adj[c] == pre.adj[c]);
                            assert(entry_appends(e, c, j + 1) =~= before);
                        }
                    }
                }
                j = j + 1;
            }
            proof {
                assert(paths_@.take(i + 1) =~= paths_@.take(i as int).push(paths_@[i as int]));
                assert forall|p2: Pos, q2: Pos| #[trigger]
                    requested(paths_@.take(i + 1), p2, q2) implies maze@.has_passage(p2, q2)
                    && maze@.has_passage(q2, p2) by {
                    let taken = paths_@.take(i + 1);
                    let (wi, wj): (int, int) = choose|wi: int, wj: int|
                        0 <= wi < taken.len() && 0 <= wj < taken[wi].1@.len() && taken[wi].0 == p2
                            && #[trigger] taken[wi].1@[wj] == q2;
                    if wi < i {
                        assert(paths_@.take(i + 1)[wi] == paths_@.take(i as int)[wi]);
                        assert(requested(paths_@.take(i as int), p2, q2));
                    } else {
                        assert(paths_@.take(i + 1)[wi] == paths_@[i as int]);
                    }
                }
                assert forall|p2: Pos, q2: Pos| #[trigger]
                    maze@.has_passage(p2, q2) implies requested(paths_@.take(i + 1), p2, q2)
                    || requested(paths_@.take(i + 1), q2, p2) by {
                    assert forall|p3: Pos, q3: Pos|
                        requested(paths_@.take(i as int), p3, q3) implies requested(
                        paths_@.take(i + 1),
                        p3,
                        q3,
                    ) by {
                        let (wi, wj): (int, int) = choose|wi: int, wj: int|
                            0 <= wi < paths_@.take(i as int).len() && 0 <= wj < paths_@.take(
                                i as int,
                            )[wi].1@.len() && paths_@.take(i as int)[wi].0 == p3
                                && #[trigger] paths_@.take(i as int)[wi].1@[wj] == q3;
                        assert(paths_@.take(i + 1)[wi] == paths_@.take(i as int)[wi]);
                        assert(paths_@.take(i + 1)[wi].1@[wj] == q3);
                    }
                    assert forall|jj: int| 0 <= jj < paths_@[i as int].1@.len() implies requested(
                        paths_@.take(i + 1),
                        p,
                        #[trigger] paths_@[i as int].1@[jj],
                    ) by {
                        assert(paths_@.take(i + 1)[i as int] == paths_@[i as int]);
                        assert(paths_@.take(i + 1)[i as int].1@[jj] == paths_@[i as int].1@[jj]);
                    }
                }
                assert(paths_@.take(i + 1).drop_last() =~= paths_@.take(i as int));
                assert(paths_@.take(i + 1).last() == paths_@[i as int]);
                assert forall|c: Pos| maze@.inside(c) implies #[trigger] maze@.adj[c]
                    == opened_appends(paths_@.take(i + 1), c) by {
                    assert(opened_appends(paths_@.take(i + 1), c) == opened_appends(
                        paths_@.take(i + 1).drop_last(),
                        c,
                    ) + entry_appends(
                        paths_@.take(i + 1).last(),
                        c,
                        paths_@.take(i + 1).last().1@.len() as int,
                    ));
                }
            }
            i = i + 1;
        }
        proof {
            assert(paths_@.take(paths_@.len() as int) =~= paths_@);
        }
        Ok(maze)
    }

    /// Adds a bidirectional passage between two grid-adjacent cells.
    /// Both endpoints are validated before either adjacency list is
    /// touched, so an error leaves the maze unchanged.
    pub fn create_path(&mut self, position_a: Pos, position_b: Pos) -> (r: Result<(), MazeError>)
        requires
            old(self).wf(),
        ensures
            final(self).wf(),
            final(self)@.width == old(self)@.width,
            final(self)@.height == old(self)@.height,
            final(self)@.start == old(self)@.start,
            final(self)@.end == old(self)@.end,
            match r {
                Ok(()) => {
                    &&& old(self)@.inside(position_a)
                    &&& old(self)@.inside(position_b)
                    &&& grid_adjacent(position_a, position_b)
                    &&& final(self)@.adj == old(self)@.adj.insert(
                        position_a,
                        old(self)@.adj[position_a].push(position_b),
                    ).insert(position_b, old(self)@.adj[position_b].push(position_a))
                },
                Err(e) => {
                    &&& *final(self) == *old(self)
                    &&& !(old(self)@.inside(position_a) && old(self)@.inside(position_b)
                        && grid_adjacent(position_a, position_b))
                    &&& (e == MazeError::OutOfBounds <==> !(old(self)@.inside(position_a) && old(
                        self,
                    )@.inside(position_b)))
                    &&& (e == MazeError::NotAdjacent <==> (old(self)@.inside(position_a) && old(
                        self,
                    )@.inside(position_b) && !grid_adjacent(position_a, position_b)))
                },
            },
    {
        if !self.is_inside(position_a) || !self.is_inside(position_b) {
            return Err(MazeError::OutOfBounds);
        }
        if !is_grid_adjacent(position_a, position_b) {
            return Err(MazeError::NotAdjacent);
        }
        let ia = self.index_of(position_a);
        let ib = self.index_of(position_b);
        proof {
            self.lemma_index_distinct(position_a, position_b);
        }
        let ghost old_paths = self.paths@;
        let mut list_a = self.paths.remove(ia);
        list_a.push(position_b);
        self.paths.insert(ia, list_a);
        proof {
            assert(self.paths@ =~= old_paths.update(
                ia as int,
                self.paths@[ia as int],
            ));
            assert(self.paths@[ia as int]@ =~= old_paths[ia as int]@.push(position_b));
        }
        let ghost mid_paths = self.paths@;
        let mut list_b = self.paths.remove(ib);
        list_b.push(position_a);
        self.paths.insert(ib, list_b);
        proof {
            assert(self.paths@ =~= mid_paths.update(ib as int, self.paths@[ib as int]));
            assert(self.paths@[ib as int]@ =~= mid_paths[ib as int]@.push(position_a));
            self.lemma_create_path_view(*old(self), position_a, position_b);
        }
        Ok(())
    }

    /// After the two pushes of `create_path`, the model is the expected
    /// double insertion and the invariant is preserved.
    proof fn lemma_create_path_view(&self, pre: Maze, position_a: Pos, position_b: Pos)
        requires
            pre.wf(),
            pre@.inside(position_a),
            pre@.inside(position_b),
            grid_adjacent(position_a, position_b),
            self.width == pre.width,
            self.height == pre.height,
            self.start == pre.start,
            self.end == pre.end,
            self.paths@ == pre.paths@.update(
                pre@.index_of(position_a),
                self.paths@[pre@.index_of(position_a)],
            ).update(pre@.index_of(position_b), self.paths@[pre@.index_of(position_b)]),
            self.paths@[pre@.index_of(position_a)]@ == pre.paths@[pre@.index_of(
                position_a,
            )]@.push(position_b),
            self.paths@[pre@.index_of(position_b)]@ == pre.paths@[pre@.index_of(
                position_b,
            )]@.push(position_a),
        ensures
            self.wf(),
            self@.adj == pre@.adj.insert(position_a, pre@.adj[position_a].push(position_b)).insert(
                position_b,
                pre@.adj[position_b].push(position_a),
            ),
            self@.width == pre@.width,
            self@.height == pre@.height,
            self@.start == pre@.start,
            self@.end == pre@.end,
    {
        let post = self@.adj;
        let target = pre@.adj.insert(position_a, pre@.adj[position_a].push(position_b)).insert(
            position_b,
            pre@.adj[position_b].push(position_a),
        );
        pre.lemma_index_distinct(position_a, position_b);
        pre.lemma_index_inside(position_a);
        pre.lemma_index_inside(position_b);
        assert forall|p: Pos| self@.inside(p) implies post[p] == target[p] by {
            pre.lemma_index_inside(p);
            pre.lemma_index_inside(position_a);
            pre.lemma_index_inside(position_b);
            if p != position_a && p != position_b {
                pre.lemma_index_distinct(p, position_a);
                pre.lemma_index_distinct(p, position_b);
            }
        }
        assert(post =~= target);
        assert forall|p: Pos, q: Pos|
            self@.inside(p) && #[trigger] self@.adj[p].contains(q) implies self@.inside(q)
            && grid_adjacent(p, q) by {
            if p == position_a || p == position_b {
                assert(pre@.adj[p].contains(q) || q == position_a || q == position_b);
            }
        }
        assert forall|p: Pos, q: Pos| self@.inside(p) && self@.inside(q) implies (#[trigger] self@
            .adj[p].contains(q) <==> #[trigger] self@.adj[q].contains(p)) by {
            assert(self@.adj[position_a] == pre@.adj[position_a].push(position_b));
            assert(self@.adj[position_b] == pre@.adj[position_b].push(position_a));
            assert(pre@.adj[p].contains(q) <==> pre@.adj[q].contains(p));
        }
    }

    /// Width of the maze.
    pub fn width(&self) -> (r: isize)
        ensures
            r == self@.width,
    {
        self.width
    }

    /// Height of the maze.
    pub fn height(&self) -> (r: isize)
        ensures
            r == self@.height,
    {
        self.height
    }

    /// Tuple containing both the width and the height of the maze.
    pub fn size(&self) -> (r: (isize, isize))
        ensures
            r.0 == self@.width,
            r.1 == self@.height,
    {
        (self.width, self.height)
    }

    /// The starting position of the maze.
    pub fn start(&self) -> (r: Pos)
        ensures
            r == self@.start,
    {
        self.start
    }

    /// The ending position of the maze.
    pub fn end(&self) -> (r: Pos)
        ensures
            r == self@.end,
    {
        self.end
    }

    /// Check if the provided position is the start of the maze.
    pub fn is_start(&self, position: Pos) -> (r: bool)
        ensures
            r == (position == self@.start),
    {
        self.start == position
    }

    /// Check if the provided position is the end of the maze.
    pub fn is_end(&self, position: Pos) -> (r: bool)
        ensures
            r == (position == self@.end),
    {
        self.end == position
    }

    /// Check if a position is included within the maze rectangle.
    pub fn is_inside(&self, position: Pos) -> (r: bool)
        ensures
            r == self@.inside(position),
    {
        let (x, y) = position.decompose();
        x >= 0 && x < self.width && y >= 0 && y < self.height
    }

    /// All positions directly accessible from `position`, or an error if
    /// `position` lies outside the rectangle.
    pub fn paths_from(&self, position: Pos) -> (r: Result<&Vec<Pos>, MazeError>)
        requires
            self.wf(),
        ensures
            match r {
                Ok(v) => self@.inside(position) && v@ == self@.adj[position],
                Err(e) => !self@.inside(position) && e == MazeError::OutOfBounds,
            },
    {
        if !self.is_inside(position) {
            return Err(MazeError::OutOfBounds);
        }
        let i = self.index_of(position);
        Ok(&self.paths[i])
    }

    /// Check if there is a wall between `position_a` and an adjacent
    /// `position_b`, that is, if `position_b` is not among the cells
    /// accessible from `position_a`.
    pub fn is_walled(&self, position_a: Pos, position_b: Pos) -> (r: Result<bool, MazeError>)
        requires
            self.wf(),
        ensures
            match r {
                Ok(w) => self@.inside(position_a) && w == !self@.has_passage(
                    position_a,
                    position_b,
                ),
                Err(e) => !self@.inside(position_a) && e == MazeError::OutOfBounds,
            },
    {
        match self.paths_from(position_a) {
            Ok(accessibles) => Ok(!contains_pos(accessibles, position_b)),
            Err(e) => Err(e),
        }
    }

    /// Whether the passage leading from `a` to `b` is open.
    fn has_passage_exec(&self, a: Pos, b: Pos) -> (r: bool)
        requires
            self.wf(),
            self@.inside(a),
        ensures
            r == self@.has_passage(a, b),
    {
        let i = self.index_of(a);
        contains_pos(&self.paths[i], b)
    }

    /// The character of the rendered text grid at `row`, `col`.
    fn glyph_at(&self, ov: &Vec<(Pos, char)>, row: isize, col: isize) -> (c: char)
        requires
            self.wf(),
            0 <= row <= 2 * self@.height,
            0 <= col <= 2 * self@.width,
        ensures
            c == self@.glyph(ov@, row as int, col as int),
    {
        if row % 2 == 0 && col % 2 == 0 {
            '\u{2022}'
        } else if row % 2 == 1 && col % 2 == 1 {
            let cell = Pos::new((col - 1) / 2, (row - 1) / 2);
            match overlay_lookup(ov, cell) {
                Some(c) => c,
                None => ' ',
            }
        } else if row % 2 == 1 {
            if col == 0 || col == 2 * self.width {
                '\u{2502}'
            } else {
                let right = Pos::new(col / 2, (row - 1) / 2);
                let left = Pos::new(col / 2 - 1, (row - 1) / 2);
                if self.has_passage_exec(left, right) {
                    ' '
                } else {
                    '\u{2502}'
                }
            }
        } else {
            if row == 0 || row == 2 * self.height {
                '\u{2500}'
            } else {
                let lower = Pos::new((col - 1) / 2, row / 2);
                let upper = Pos::new((col - 1) / 2, row / 2 - 1);
                if self.has_passage_exec(upper, lower) {
                    ' '
                } else {
                    '\u{2500}'
                }
            }
        }
    }

    /// Renders the maze as a text grid: `2 * height + 1` lines of
    /// `2 * width + 1` characters each, joined by newlines, with one line
    /// of wall and corner glyphs per row and column boundary. The
    /// optional overlay maps cells to display characters that replace the
    /// default blank cell glyph; a later pair for the same cell wins.
    pub fn display(&self, overlay: Option<Vec<(Pos, char)>>) -> (r: String)
        requires
            self.wf(),
        ensures
            ({
                let ov = match overlay {
                    Some(v) => v@,
                    None => Seq::<(Pos, char)>::empty(),
                };
                let rows = 2 * self@.height + 1;
                let cols = 2 * self@.width + 1;
                &&& r@.len() == rows * (cols + 1) - 1
                &&& forall|i: int, j: int|
                    0 <= i < rows && 0 <= j < cols ==> r@[i * (cols + 1) + j] == self@.glyph(
                        ov,
                        i,
                        j,
                    )
                &&& forall|i: int| 0 <= i < rows - 1 ==> #[trigger] r@[i * (cols + 1) + cols] == '\n'
            }),
    {
        let ghost ov_spec: Seq<(Pos, char)> = if overlay is Some {
            overlay->0@
        } else {
            Seq::<(Pos, char)>::empty()
        };
        let ov: Vec<(Pos, char)> = match overlay {
            Some(v) => v,
            None => Vec::new(),
        };
        proof {
            assert(ov@ =~= ov_spec);
        }
        let rows = 2 * self.height + 1;
        let cols = 2 * self.width + 1;
        let mut out = String::new();
        let mut row: isize = 0;
        while row < rows
            invariant
                self.wf(),
                ov@ == ov_spec,
                rows == 2 * self@.height + 1,
                cols == 2 * self@.width + 1,
                0 <= row <= rows,
                row < rows ==> out@.len() == row * (cols + 1),
                row == rows ==> out@.len() == rows * (cols + 1) - 1,
                forall|i: int, j: int|
                    0 <= i < row && 0 <= j < cols ==> out@[i * (cols + 1) + j] == self@.glyph(
                        ov_spec,
                        i,
                        j,
                    ),
                forall|i: int|
                    0 <= i < row && i < rows - 1 ==> #[trigger] out@[i * (cols + 1) + cols]
                        == '\n',
            decreases rows - row,
        {
            let mut col: isize = 0;
            while col < cols
                invariant
                    self.wf(),
                    ov@ == ov_spec,
                    rows == 2 * self@.height + 1,
                    cols == 2 * self@.width + 1,
                    0 <= row < rows,
                    0 <= col <= cols,
                    out@.len() == row * (cols + 1) + col,
                    forall|i: int, j: int|
                        0 <= i < row && 0 <= j < cols ==> out@[i * (cols + 1) + j] == self@.glyph(
                            ov_spec,
                            i,
                            j,
                        ),
                    forall|i: int|
                        0 <= i < row && i < rows - 1 ==> #[trigger] out@[i * (cols + 1) + cols]
                            == '\n',
                    forall|j: int|
                        0 <= j < col ==> out@[row * (cols + 1) + j] == self@.glyph(
                            ov_spec,
                            row as int,
                            j,
                        ),
                decreases cols - col,
            {
                let c = self.glyph_at(&ov, row, col);
                let ghost out_prev = out@;
                push_char(&mut out, c);
                proof {
                    assert forall|i: int, j: int|
                        0 <= i < row && 0 <= j < cols implies out@[i * (cols + 1) + j] == self@
                        .glyph(ov_spec, i, j) by {
                        lemma_row_major_lt(i, j, row as int, (cols + 1) as int);
                        assert(out@[i * (cols + 1) + j] == out_prev[i * (cols + 1) + j]);
                    }
                    assert forall|i: int|
                        0 <= i < row && i < rows - 1 implies #[trigger] out@[i * (cols + 1) + cols]
                        == '\n' by {
                        lemma_row_major_lt(i, cols as int, row as int, (cols + 1) as int);
                        assert(out@[i * (cols + 1) + cols] == out_prev[i * (cols + 1) + cols]);
                    }
                    assert forall|j: int|
                        0 <= j < col + 1 implies out@[row * (cols + 1) + j] == self@.glyph(
                        ov_spec,
                        row as int,
                        j,
                    ) by {
                        if j < col {
                            assert(out@[row * (cols + 1) + j] == out_prev[row * (cols + 1) + j]);
                        } else {
                            assert(row * (cols + 1) + j == out_prev.len());
                        }
                    }
                }
                col = col + 1;
            }
            if row < rows - 1 {
                let ghost out_prev = out@;
                push_char(&mut out, '\n');
                proof {
                    assert forall|i: int, j: int|
                        0 <= i < row + 1 && 0 <= j < cols implies out@[i * (cols + 1) + j] == self@
                        .glyph(ov_spec, i, j) by {
                        if i < row {
                            lemma_row_major_lt(i, j, row as int, (cols + 1) as int);
                        } else {
                            assert(0 <= row * (cols + 1)) by (nonlinear_arith)
                                requires
                                    0 <= row,
                                    0 <= cols,
                            ;
                        }
                        assert(out@[i * (cols + 1) + j] == out_prev[i * (cols + 1) + j]);
                    }
                    assert forall|i: int|
                        0 <= i < row + 1 && i < rows - 1 implies #[trigger] out@[i * (cols + 1)
                        + cols] == '\n' by {
                        if i < row {
                            lemma_row_major_lt(i, cols as int, row as int, (cols + 1) as int);
                            assert(out@[i * (cols + 1) + cols] == out_prev[i * (cols + 1) + cols]);
                        } else {
                            assert(i * (cols + 1) + cols == out_prev.len());
                        }
                    }
                }
            }
            proof {
                assert((row + 1) * (cols + 1) == row * (cols + 1) + (cols + 1)) by (nonlinear_arith);
                if row == rows - 1 {
                    assert(rows * (cols + 1) == row * (cols + 1) + (cols + 1)) by (nonlinear_arith)
                        requires
                            rows == row + 1,
                    ;
                }
            }
            row = row + 1;
        }
        out
    }

    /// The grid-adjacent positions of `position` that are included in the
    /// maze rectangle: at most four distinct orthogonal neighbors, in the
    /// relative order left, right, up, down; never `position` itself,
    /// independent of passages.
    pub fn adjascent(&self, position: Pos) -> (r: Vec<Pos>)
        requires
            position.0 > isize::MIN,
            position.0 < isize::MAX,
            position.1 > isize::MIN,
            position.1 < isize::MAX,
        ensures
            r@ == self@.adjacent_seq(position),
            forall|q: Pos|
                #[trigger] r@.contains(q) <==> (self@.inside(q) && grid_adjacent(position, q)),
            r@.no_duplicates(),
            r@.len() <= 4,
            !r@.contains(position),
    {
        let (x, y) = position.decompose();
        let left = Pos::new(x - 1, y);
        let right = Pos::new(x + 1, y);
        let up = Pos::new(x, y - 1);
        let down = Pos::new(x, y + 1);
        let mut result: Vec<Pos> = Vec::new();
        if self.is_inside(left) {
            result.push(left);
        }
        if self.is_inside(right) {
            result.push(right);
        }
        if self.is_inside(up) {
            result.push(up);
        }
        if self.is_inside(down) {
            result.push(down);
        }
        proof {
            assert(result@ =~= self@.adjacent_seq(position));
            assert(result@.no_duplicates());
            assert forall|q: Pos| #[trigger]
                result@.contains(q) <==> (self@.inside(q) && grid_adjacent(position, q)) by {
                assert(grid_adjacent(position, q) <==> (q == left || q == right || q == up || q
                    == down));
            }
        }
        result
    }
}

/// Row-major index order: an index in an earlier row comes before the
/// first index of the current row.
proof fn lemma_row_major_lt(i: int, j: int, row: int, stride: int)
    requires
        0 <= i < row,
        0 <= j < stride,
    ensures
        0 <= i * stride + j < row * stride,
{
    assert(0 <= i * stride + j < row * stride) by (nonlinear_arith)
        requires
            0 <= i < row,
            0 <= j < stride,
    ;
}

/// Relies on `String::push`: appends the given character to the end of
/// the string.
#[verifier::external_body]
fn push_char(s: &mut String, c: char)
    ensures
        final(s)@ == old(s)@.push(c),
{
    s.push(c)
}

/// Finds the overlay character for `p`: the character of the last
/// overlay pair naming `p`, scanning from the end.
fn overlay_lookup(ov: &Vec<(Pos, char)>, p: Pos) -> (r: Option<char>)
    ensures
        r == overlay_char(ov@, p),
{
    proof {
        assert(ov@.take(ov@.len() as int) =~= ov@);
    }
    let mut k: usize = ov.len();
    while k > 0
        invariant
            0 <= k <= ov@.len(),
            overlay_char(ov@, p) == overlay_char(ov@.take(k as int), p),
        decreases k,
    {
        let ghost k0 = k as int;
        k = k - 1;
        proof {
            assert(ov@.take(k0).last() == ov@[k as int]);
            assert(ov@.take(k0).drop_last() =~= ov@.take(k as int));
        }
        if ov[k].0 == p {
            return Some(ov[k].1);
        }
    }
    None
}

/// Law: maze adjacency is symmetric. For all cells `a` and `b` of a
/// well-formed maze, `b` is among the cells directly accessible from `a`
/// exactly when `a` is among the cells directly accessible from `b`.
pub proof fn lemma_adjacency_symmetric(m: &Maze, a: Pos, b: Pos)
    requires
        m.wf(),
        m@.inside(a),
        m@.inside(b),
    ensures
        m@.adj[a].contains(b) <==> m@.adj[b].contains(a),
{
}

/// Executable test for grid adjacency of two positions.
pub fn is_grid_adjacent(a: Pos, b: Pos) -> (r: bool)
    requires
        a.0 > isize::MIN,
        a.0 < isize::MAX,
        a.1 > isize::MIN,
        a.1 < isize::MAX,
    ensures
        r == grid_adjacent(a, b),
{
    (a.0 == b.0 && (b.1 == a.1 + 1 || b.1 == a.1 - 1)) || (a.1 == b.1 && (b.0 == a.0 + 1 || b.0
        == a.0 - 1))
}

/// Linear scan for a position in a vector of positions.
pub fn contains_pos(v: &Vec<Pos>, p: Pos) -> (r: bool)
    ensures
        r == v@.contains(p),
{
    let mut k: usize = 0;
    while k < v.len()
        invariant
            0 <= k <= v@.len(),
            forall|j: int| 0 <= j < k ==> v@[j] != p,
        decreases v@.len() - k,
    {
        if v[k] == p {
            return true;
        }
        k = k + 1;
    }
    false
}

} // verus!

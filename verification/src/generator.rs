//! Maze generation by randomized recursive backtracking: passages are
//! carved into an initially fully walled grid, yielding a perfect maze.

use vstd::multiset::Multiset;
use vstd::prelude::*;

use crate::labyrinth::{contains_pos, grid_adjacent, Maze, MazeView};
use crate::position::{Pos, MAX_DIM};

verus! {

broadcast use crate::labyrinth::Maze::lemma_wf_view, vstd::seq_lib::group_to_multiset_ensures, vstd::seq_lib::lemma_seq_contains_after_push;

/// Relies on `rand::Rng::gen_range` over `rand::thread_rng`: returns a
/// randomly chosen index below `n`. The call panics only on an empty
/// range, which `n > 0` rules out; nothing more is assumed of the value.
#[verifier::external_body]
fn random_below(n: usize) -> (r: usize)
    requires
        n > 0,
    ensures
        r < n,
{
    rand::Rng::gen_range(&mut rand::thread_rng(), 0..n)
}

/// Reorders the vector randomly: the result holds exactly the same
/// positions, with the same multiplicities.
fn shuffle_positions(v: &mut Vec<Pos>)
    ensures
        final(v)@.to_multiset() == old(v)@.to_multiset(),
        final(v)@.len() == old(v)@.len(),
{
    let ghost orig = v@;
    let mut rest: Vec<Pos> = Vec::new();
    core::mem::swap(v, &mut rest);
    proof {
        assert(v@.to_multiset().add(rest@.to_multiset()) =~= orig.to_multiset());
    }
    while rest.len() > 0
        invariant
            v@.to_multiset().add(rest@.to_multiset()) == orig.to_multiset(),
            v@.len() + rest@.len() == orig.len(),
        decreases rest@.len(),
    {
        let ghost v_pre = v@;
        let ghost rest_pre = rest@;
        let j = random_below(rest.len());
        let p = rest.remove(j);
        v.push(p);
        proof {
            assert(rest@.to_multiset() =~= rest_pre.to_multiset().remove(p));
            assert(v@.to_multiset() =~= v_pre.to_multiset().insert(p));
            assert(rest_pre.to_multiset().count(p) > 0) by {
                assert(rest_pre.contains(p));
            }
            assert(v@.to_multiset().add(rest@.to_multiset()) =~= orig.to_multiset());
        }
    }
    proof {
        assert(rest@.to_multiset() =~= Multiset::<Pos>::empty()) by {
            rest@.to_multiset_ensures();
        }
        assert(v@.to_multiset().add(Multiset::<Pos>::empty()) =~= v@.to_multiset());
    }
}

/// The position of a cell in the first-visit order.
spec fn rank_of(visited: Seq<Pos>, p: Pos) -> int {
    choose|i: int| 0 <= i < visited.len() && visited[i] == p
}

/// For a cell of a duplicate-free visited sequence, its rank is the one
/// index holding it.
proof fn lemma_rank_of(visited: Seq<Pos>, p: Pos)
    requires
        visited.no_duplicates(),
        visited.contains(p),
    ensures
        0 <= rank_of(visited, p) < visited.len(),
        visited[rank_of(visited, p)] == p,
        forall|i: int| 0 <= i < visited.len() && visited[i] == p ==> i == rank_of(visited, p),
{
    assert(exists|i: int| 0 <= i < visited.len() && visited[i] == p);
}

/// Ranks are stable when a new cell is appended, and the new cell ranks
/// last.
proof fn lemma_rank_push(visited: Seq<Pos>, p: Pos, n: Pos)
    requires
        visited.no_duplicates(),
        !visited.contains(n),
    ensures
        visited.contains(p) ==> rank_of(visited.push(n), p) == rank_of(visited, p),
        rank_of(visited.push(n), n) == visited.len(),
{
    let post = visited.push(n);
    assert(post.no_duplicates());
    if visited.contains(p) {
        lemma_rank_of(visited, p);
        assert(post[rank_of(visited, p)] == p);
        assert(post.contains(p));
        lemma_rank_of(post, p);
    }
    assert(post[visited.len() as int] == n);
    assert(post.contains(n));
    lemma_rank_of(post, n);
}

/// The running state of a carve: the maze stays well-formed, the visited
/// cells are distinct in-bounds cells all reachable from the anchor, the
/// unvisited cells have no passages yet, the number of carved passages
/// (each counted twice in the degree total) is one less than the number
/// of visited cells, and every cell has at most one passage to an
/// earlier-visited cell.
spec fn gen_inv(v: MazeView, visited: Seq<Pos>, anchor: Pos) -> bool {
    &&& v.wf()
    &&& visited.no_duplicates()
    &&& forall|i: int| 0 <= i < visited.len() ==> v.inside(#[trigger] visited[i])
    &&& visited.contains(anchor)
    &&& forall|p: Pos| #[trigger] visited.contains(p) ==> v.reachable(anchor, p)
    &&& forall|p: Pos| v.inside(p) && !visited.contains(p) ==> (#[trigger] v.adj[p]).len() == 0
    &&& v.degree_total() == 2 * (visited.len() - 1)
    &&& forall|q: Pos, r1: Pos, r2: Pos|
        #[trigger] v.has_passage(q, r1) && #[trigger] v.has_passage(q, r2) && rank_of(
            visited,
            r1,
        ) < rank_of(visited, q) && rank_of(visited, r2) < rank_of(visited, q) ==> r1 == r2
}

/// Both endpoints of an open passage have been visited: unvisited cells
/// have no passages, in either direction.
proof fn lemma_passage_visited(v: MazeView, visited: Seq<Pos>, anchor: Pos, a: Pos, b: Pos)
    requires
        gen_inv(v, visited, anchor),
        v.has_passage(a, b),
    ensures
        visited.contains(a),
        visited.contains(b),
        v.has_passage(b, a),
{
    assert(v.inside(a));
    assert(v.inside(b));
    assert(v.adj[b].contains(a));
    if !visited.contains(a) {
        assert(v.adj[a].len() == 0);
    }
    if !visited.contains(b) {
        assert(v.adj[b].len() == 0);
    }
}

/// Whether every in-bounds grid neighbor of `p` has been visited.
spec fn closed_cell(v: MazeView, visited: Seq<Pos>, p: Pos) -> bool {
    forall|q: Pos| v.inside(q) && #[trigger] grid_adjacent(p, q) ==> visited.contains(q)
}

/// Distinct in-bounds cells are no more numerous than the rectangle's
/// cells; and when they cover every in-bounds cell, exactly as numerous.
proof fn lemma_visited_cardinality(v: MazeView, visited: Seq<Pos>)
    requires
        1 <= v.width <= MAX_DIM as int,
        1 <= v.height <= MAX_DIM as int,
        visited.no_duplicates(),
        forall|i: int| 0 <= i < visited.len() ==> v.inside(#[trigger] visited[i]),
    ensures
        visited.len() <= v.cells(),
        (forall|p: Pos| v.inside(p) ==> visited.contains(p)) ==> visited.len() == v.cells(),
{
    let idxs = visited.map_values(|p: Pos| v.index_of(p));
    assert(idxs.no_duplicates()) by {
        assert forall|i: int, j: int|
            0 <= i < idxs.len() && 0 <= j < idxs.len() && i != j implies idxs[i] != idxs[j] by {
            v.lemma_index_of_inside(visited[i]);
            v.lemma_index_of_inside(visited[j]);
        }
    }
    idxs.unique_seq_to_set();
    let range = vstd::set_lib::set_int_range(0, v.cells());
    vstd::set_lib::lemma_int_range(0, v.cells());
    assert(idxs.to_set().subset_of(range)) by {
        assert forall|x: int| idxs.to_set().contains(x) implies range.contains(x) by {
            let i = choose|i: int| 0 <= i < idxs.len() && idxs[i] == x;
            v.lemma_index_of_inside(visited[i]);
        }
    }
    vstd::set_lib::lemma_len_subset(idxs.to_set(), range);
    if forall|p: Pos| v.inside(p) ==> visited.contains(p) {
        assert(range.subset_of(idxs.to_set())) by {
            assert forall|x: int| range.contains(x) implies idxs.to_set().contains(x) by {
                v.lemma_cell_of_inside(x);
                let c = v.cell_of(x);
                assert(visited.contains(c));
                let i = choose|i: int| 0 <= i < visited.len() && visited[i] == c;
                assert(idxs[i] == v.index_of(c));
            }
        }
        assert(idxs.to_set() =~= range);
    }
}

/// Starting from the origin, a visited set that is closed under grid
/// adjacency covers the whole rectangle.
proof fn lemma_grid_covered(v: MazeView, visited: Seq<Pos>, p: Pos)
    requires
        1 <= v.width,
        1 <= v.height,
        visited.contains(Pos(0, 0)),
        forall|c: Pos| #[trigger] visited.contains(c) ==> closed_cell(v, visited, c),
        v.inside(p),
    ensures
        visited.contains(p),
    decreases p.0 + p.1,
{
    if p.0 == 0 && p.1 == 0 {
    } else if p.0 > 0 {
        let p2 = Pos((p.0 - 1) as isize, p.1);
        lemma_grid_covered(v, visited, p2);
        assert(grid_adjacent(p2, p));
    } else {
        let p2 = Pos(p.0, (p.1 - 1) as isize);
        lemma_grid_covered(v, visited, p2);
        assert(grid_adjacent(p2, p));
    }
}

/// Carves passages depth-first from `current`: visits the in-bounds
/// neighbors in random order and, for each not yet visited one, opens
/// the passage to it and recurses from it. On return every neighbor of
/// `current` is visited, and every cell visited during the call has all
/// of its neighbors visited too.
fn carve(maze: &mut Maze, visited: &mut Vec<Pos>, current: Pos, anchor: Ghost<Pos>)
    requires
        old(maze).wf(),
        gen_inv(old(maze)@, old(visited)@, anchor@),
        old(maze)@.inside(current),
        old(visited)@.contains(current),
    ensures
        final(maze).wf(),
        gen_inv(final(maze)@, final(visited)@, anchor@),
        final(maze)@.width == old(maze)@.width,
        final(maze)@.height == old(maze)@.height,
        final(maze)@.start == old(maze)@.start,
        final(maze)@.end == old(maze)@.end,
        forall|p: Pos| #[trigger] old(visited)@.contains(p) ==> final(visited)@.contains(p),
        forall|p: Pos, q: Pos| #[trigger]
            old(maze)@.has_passage(p, q) ==> final(maze)@.has_passage(p, q),
        closed_cell(final(maze)@, final(visited)@, current),
        forall|p: Pos|
            #[trigger] final(visited)@.contains(p) && !old(visited)@.contains(p) ==> closed_cell(
                final(maze)@,
                final(visited)@,
                p,
            ),
        old(visited)@.len() <= final(visited)@.len(),
    decreases old(maze)@.cells() - old(visited)@.len(),
{
    proof {
        lemma_visited_cardinality(old(maze)@, old(visited)@);
    }
    let mut adjacent_positions = maze.adjascent(current);
    let ghost neighbor_set = adjacent_positions@;
    shuffle_positions(&mut adjacent_positions);
    proof {
        assert forall|q: Pos| #[trigger]
            adjacent_positions@.contains(q) <==> (old(maze)@.inside(q) && grid_adjacent(
                current,
                q,
            )) by {
            assert(adjacent_positions@.to_multiset().count(q) == neighbor_set.to_multiset().count(
                q,
            ));
            assert(adjacent_positions@.contains(q) <==> neighbor_set.contains(q));
        }
    }
    let mut k: usize = 0;
    while k < adjacent_positions.len()
        invariant
            maze.wf(),
            gen_inv(maze@, visited@, anchor@),
            maze@.width == old(maze)@.width,
            maze@.height == old(maze)@.height,
            maze@.start == old(maze)@.start,
            maze@.end == old(maze)@.end,
            maze@.inside(current),
            visited@.contains(current),
            0 <= k <= adjacent_positions@.len(),
            forall|q: Pos| #[trigger]
                adjacent_positions@.contains(q) <==> (old(maze)@.inside(q) && grid_adjacent(
                    current,
                    q,
                )),
            forall|p: Pos| #[trigger] old(visited)@.contains(p) ==> visited@.contains(p),
            forall|p: Pos, q: Pos| #[trigger]
                old(maze)@.has_passage(p, q) ==> maze@.has_passage(p, q),
            forall|j: int| 0 <= j < k ==> visited@.contains(#[trigger] adjacent_positions@[j]),
            forall|p: Pos|
                #[trigger] visited@.contains(p) && !old(visited)@.contains(p) ==> closed_cell(
                    maze@,
                    visited@,
                    p,
                ),
            old(visited)@.len() <= visited@.len(),
        decreases adjacent_positions@.len() - k,
    {
        let neighbor = adjacent_positions[k];
        proof {
            assert(adjacent_positions@.contains(neighbor));
        }
        if !contains_pos(visited, neighbor) {
            let ghost maze_pre = maze@;
            let ghost visited_pre = visited@;
            match maze.create_path(current, neighbor) {
                Ok(()) => (),
                Err(_) => {
                    proof {
                        assert(false);
                    }
                    vstd::pervasive::unreached()
                },
            }
            visited.push(neighbor);
            proof {
                lemma_carve_edge(maze_pre, maze@, visited_pre, visited@, current, neighbor, anchor@);
                lemma_visited_cardinality(maze@, visited@);
            }
            carve(maze, visited, neighbor, anchor);
            proof {
                assert forall|j: int| 0 <= j < k + 1 implies visited@.contains(
                    #[trigger] adjacent_positions@[j],
                ) by {
                    if j < k {
                        assert(visited_pre.contains(adjacent_positions@[j]));
                        assert(visited_pre.push(neighbor).contains(adjacent_positions@[j]));
                    } else {
                        assert(visited_pre.push(neighbor).contains(neighbor));
                    }
                }
            }
        }
        k = k + 1;
    }
    proof {
        assert forall|q: Pos|
            maze@.inside(q) && #[trigger] grid_adjacent(current, q) implies visited@.contains(
            q,
        ) by {
            assert(old(maze)@.inside(q));
            assert(adjacent_positions@.contains(q));
            let j = choose|j: int|
                0 <= j < adjacent_positions@.len() && adjacent_positions@[j] == q;
            assert(visited@.contains(adjacent_positions@[j]));
        }
    }
}

/// One carved passage keeps the whole generation invariant: the newly
/// visited far end is reachable, passage counts rise by one passage, and
/// only the two endpoint cells gain adjacency entries.
proof fn lemma_carve_edge(
    pre: MazeView,
    post: MazeView,
    visited_pre: Seq<Pos>,
    visited_post: Seq<Pos>,
    current: Pos,
    neighbor: Pos,
    anchor: Pos,
)
    requires
        pre.wf(),
        post.wf(),
        gen_inv(pre, visited_pre, anchor),
        pre.inside(current),
        pre.inside(neighbor),
        grid_adjacent(current, neighbor),
        visited_pre.contains(current),
        !visited_pre.contains(neighbor),
        visited_post == visited_pre.push(neighbor),
        post.width == pre.width,
        post.height == pre.height,
        post.start == pre.start,
        post.end == pre.end,
        post.adj == pre.adj.insert(current, pre.adj[current].push(neighbor)).insert(
            neighbor,
            pre.adj[neighbor].push(current),
        ),
    ensures
        gen_inv(post, visited_post, anchor),
        forall|p: Pos, q: Pos| #[trigger] pre.has_passage(p, q) ==> post.has_passage(p, q),
        forall|p: Pos| #[trigger] visited_pre.contains(p) ==> visited_post.contains(p),
{
    broadcast use vstd::seq_lib::lemma_seq_contains_after_push;

    assert(current != neighbor);
    // passages only grow
    assert forall|p: Pos, q: Pos| #[trigger] pre.has_passage(p, q) implies post.has_passage(
        p,
        q,
    ) by {
        if p == current || p == neighbor {
            assert(post.adj[p].contains(q));
        } else {
            assert(post.adj[p] == pre.adj[p]);
        }
    }
    // distinct in-bounds cells, neighbor included
    assert(visited_post.no_duplicates());
    assert forall|i: int| 0 <= i < visited_post.len() implies post.inside(
        #[trigger] visited_post[i],
    ) by {
        if i < visited_pre.len() {
            assert(visited_pre[i] == visited_post[i]);
        }
    }
    // everything visited stays reachable from the anchor
    assert forall|p: Pos| #[trigger] visited_post.contains(p) implies post.reachable(
        anchor,
        p,
    ) by {
        if visited_pre.contains(p) {
            pre.lemma_reachable_monotone(post, anchor, p);
        } else {
            assert(p == neighbor);
            assert(pre.reachable(anchor, current));
            pre.lemma_reachable_monotone(post, anchor, current);
            assert(post.has_passage(current, neighbor)) by {
                assert(post.adj[current].contains(neighbor));
            }
            post.lemma_reachable_step(anchor, current, neighbor);
        }
    }
    // unvisited cells still have no passages
    assert forall|p: Pos| post.inside(p) && !visited_post.contains(p) implies (#[trigger] post
        .adj[p]).len() == 0 by {
        assert(p != current && p != neighbor);
        assert(post.adj[p] == pre.adj[p]);
        assert(!visited_pre.contains(p));
    }
    // the degree total rises by two: one entry at each endpoint
    let mid = MazeView {
        adj: pre.adj.insert(current, pre.adj[current].push(neighbor)),
        ..pre
    };
    assert(mid.adj[current].len() == pre.adj[current].len() + 1);
    assert forall|p: Pos| pre.inside(p) && p != current implies #[trigger] mid.adj[p] == pre.adj[p] by {
    }
    pre.lemma_degree_sum_update(mid, current, pre.cells());
    pre.lemma_index_of_inside(current);
    assert(mid.adj[neighbor].len() == pre.adj[neighbor].len());
    assert(post.adj[neighbor].len() == mid.adj[neighbor].len() + 1);
    assert forall|p: Pos| mid.inside(p) && p != neighbor implies #[trigger] post.adj[p] == mid.adj[p] by {
    }
    mid.lemma_degree_sum_update(post, neighbor, mid.cells());
    mid.lemma_index_of_inside(neighbor);
    assert(post.degree_total() == pre.degree_total() + 2);
    assert(visited_post.len() == visited_pre.len() + 1);
    // each cell still has at most one passage to an earlier-visited cell
    lemma_rank_push(visited_pre, current, neighbor);
    assert forall|q: Pos, r1: Pos, r2: Pos|
        #[trigger] post.has_passage(q, r1) && #[trigger] post.has_passage(q, r2) && rank_of(
            visited_post,
            r1,
        ) < rank_of(visited_post, q) && rank_of(visited_post, r2) < rank_of(
            visited_post,
            q,
        ) implies r1 == r2 by {
        if q == neighbor {
            // the only passage out of the newly visited cell leads back
            assert(pre.adj[neighbor].len() == 0);
            assert(post.adj[neighbor] == pre.adj[neighbor].push(current));
            assert(r1 == current && r2 == current);
        } else {
            assert(visited_post.contains(q)) by {
                if !visited_post.contains(q) {
                    assert(post.adj[q].len() == 0);
                }
            }
            assert(visited_pre.contains(q));
            lemma_rank_push(visited_pre, q, neighbor);
            lemma_rank_of(visited_pre, q);
            assert(r1 != neighbor && r2 != neighbor) by {
                lemma_rank_push(visited_pre, neighbor, neighbor);
            }
            assert(post.adj[r1].contains(q));
            assert(post.adj[r2].contains(q));
            assert(visited_post.contains(r1)) by {
                if !visited_post.contains(r1) {
                    assert(post.adj[r1].len() == 0);
                }
            }
            assert(visited_post.contains(r2)) by {
                if !visited_post.contains(r2) {
                    assert(post.adj[r2].len() == 0);
                }
            }
            assert(visited_pre.contains(r1));
            assert(visited_pre.contains(r2));
            lemma_rank_push(visited_pre, r1, neighbor);
            lemma_rank_push(visited_pre, r2, neighbor);
            assert(pre.has_passage(q, r1));
            assert(pre.has_passage(q, r2));
        }
    }
}

/// An index of a maximal-rank cell of a non-empty sequence of cells.
proof fn max_rank_index(visited: Seq<Pos>, s: Seq<Pos>) -> (m: int)
    requires
        s.len() > 0,
    ensures
        0 <= m < s.len(),
        forall|i: int|
            0 <= i < s.len() ==> rank_of(visited, #[trigger] s[i]) <= rank_of(visited, s[m]),
    decreases s.len(),
{
    if s.len() == 1 {
        0
    } else {
        let m0 = max_rank_index(visited, s.drop_last());
        assert(forall|i: int| 0 <= i < s.len() - 1 ==> s.drop_last()[i] == #[trigger] s[i]);
        if rank_of(visited, s.last()) > rank_of(visited, s[m0]) {
            assert(s.last() == s[s.len() - 1]);
            s.len() - 1
        } else {
            m0
        }
    }
}

/// A maze carved so that every cell has at most one passage to an
/// earlier-visited cell holds no simple cycle: on any closed walk over
/// three or more distinct cells, the last-visited cell would have two.
proof fn lemma_tree_acyclic(v: MazeView, visited: Seq<Pos>, anchor: Pos)
    requires
        gen_inv(v, visited, anchor),
    ensures
        v.acyclic(),
{
    assert forall|s: Seq<Pos>|
        !(#[trigger] v.is_path(s) && s.len() >= 4 && s.first() == s.last()
            && s.drop_last().no_duplicates()) by {
        if v.is_path(s) && s.len() >= 4 && s.first() == s.last() && s.drop_last().no_duplicates() {
            let cyc = s.drop_last();
            let n1 = cyc.len() as int;
            assert forall|i: int| 0 <= i < n1 implies visited.contains(#[trigger] cyc[i]) by {
                assert(v.has_passage(s[i], s[i + 1]));
                lemma_passage_visited(v, visited, anchor, s[i], s[i + 1]);
                assert(cyc[i] == s[i]);
            }
            let m = max_rank_index(visited, cyc);
            let prev = if m == 0 {
                n1 - 1
            } else {
                m - 1
            };
            let next = if m == n1 - 1 {
                0
            } else {
                m + 1
            };
            assert(v.has_passage(cyc[m], cyc[prev])) by {
                if m == 0 {
                    let i0 = n1 - 1;
                    assert(v.has_passage(s[i0], s[i0 + 1]));
                    assert(s[i0 + 1] == s.last() && s.last() == s.first() && s.first() == cyc[0]);
                    lemma_passage_visited(v, visited, anchor, s[i0], s[i0 + 1]);
                } else {
                    let i0 = m - 1;
                    assert(v.has_passage(s[i0], s[i0 + 1]));
                    lemma_passage_visited(v, visited, anchor, s[i0], s[i0 + 1]);
                }
            }
            assert(v.has_passage(cyc[m], cyc[next])) by {
                if m == n1 - 1 {
                    let i0 = n1 - 1;
                    assert(v.has_passage(s[i0], s[i0 + 1]));
                    assert(s[i0 + 1] == s.last() && s.last() == s.first() && s.first() == cyc[0]);
                } else {
                    assert(v.has_passage(s[m], s[m + 1]));
                }
            }
            assert(prev != next);
            assert(cyc[prev] != cyc[next]);
            assert(cyc[prev] != cyc[m]);
            assert(cyc[next] != cyc[m]);
            lemma_rank_of(visited, cyc[m]);
            lemma_rank_of(visited, cyc[prev]);
            lemma_rank_of(visited, cyc[next]);
            assert(rank_of(visited, cyc[prev]) < rank_of(visited, cyc[m]));
            assert(rank_of(visited, cyc[next]) < rank_of(visited, cyc[m]));
            assert(cyc[prev] == cyc[next]);
        }
    }
}

/// Trait encapsulating the behavior of a type capable of creating mazes.
pub trait MazeGenerator {
    /// Whether this generator's configuration can produce a maze.
    spec fn wf(&self) -> bool;

    /// Produces a well-formed maze.
    fn generate(&self) -> (r: Maze)
        requires
            self.wf(),
        ensures
            r.wf(),
    ;
}

/// The most common maze generation technique: recursively carving paths
/// to unvisited cells, each time choosing the next direction at random.
/// The result is a perfect maze: a spanning tree over the grid.
pub struct SimpleGenerator {
    width: isize,
    height: isize,
}

impl SimpleGenerator {
    /// The configured width.
    pub closed spec fn spec_width(&self) -> int {
        self.width as int
    }

    /// The configured height.
    pub closed spec fn spec_height(&self) -> int {
        self.height as int
    }

    /// Constructor.
    pub fn new(width: isize, height: isize) -> (r: Self)
        ensures
            r.spec_width() == width as int,
            r.spec_height() == height as int,
            r.wf() <==> (1 <= width <= MAX_DIM && 1 <= height <= MAX_DIM),
    {
        SimpleGenerator { height, width }
    }
}

impl MazeGenerator for SimpleGenerator {
    /// The dimensions must describe a non-empty grid within range.
    open spec fn wf(&self) -> bool {
        1 <= self.spec_width() <= MAX_DIM as int && 1 <= self.spec_height() <= MAX_DIM as int
    }

    /// Builds the fully walled grid with the start at the origin and the
    /// end at the opposite corner, then carves passages by randomized
    /// recursive backtracking from the start. The result is a perfect
    /// maze, a spanning tree over the grid: every cell is reachable from
    /// the start, the number of carved passages (each counted twice in
    /// the degree total) is one less than the number of cells, and no
    /// simple cycle runs through the passages.
    fn generate(&self) -> (r: Maze)
        ensures
            r@.width == self.spec_width(),
            r@.height == self.spec_height(),
            r@.start == (Pos(0, 0)),
            r@.end.0 == self.spec_width() - 1,
            r@.end.1 == self.spec_height() - 1,
            forall|p: Pos| r@.inside(p) ==> r@.reachable(r@.start, p),
            r@.degree_total() == 2 * (r@.cells() - 1),
            r@.acyclic(),
    {
        let start = Pos::zero();
        let end = Pos::new(self.width - 1, self.height - 1);
        let mut maze = match Maze::new(self.width, self.height, start, end, Vec::new()) {
            Ok(m) => m,
            Err(_) => {
                proof {
                    assert(false);
                }
                vstd::pervasive::unreached()
            },
        };
        proof {
            assert forall|p: Pos| maze@.inside(p) implies (#[trigger] maze@.adj[p]).len()
                == 0 by {
                if maze@.adj[p].len() > 0 {
                    assert(maze@.adj[p].contains(maze@.adj[p][0]));
                    assert(maze@.has_passage(p, maze@.adj[p][0]));
                }
            }
            maze@.lemma_degree_sum_bare(maze@.cells());
        }
        let mut visited: Vec<Pos> = Vec::new();
        visited.push(start);
        proof {
            maze@.lemma_reachable_refl(start);
            assert(visited@.contains(start));
            assert(gen_inv(maze@, visited@, start));
        }
        carve(&mut maze, &mut visited, start, Ghost(start));
        proof {
            assert forall|p: Pos| maze@.inside(p) implies visited@.contains(p) by {
                assert forall|c: Pos| #[trigger] visited@.contains(c) implies closed_cell(
                    maze@,
                    visited@,
                    c,
                ) by {
                    if c == start {
                        assert(closed_cell(maze@, visited@, start));
                    }
                }
                lemma_grid_covered(maze@, visited@, p);
            }
            lemma_visited_cardinality(maze@, visited@);
            assert(visited@.len() == maze@.cells());
            lemma_tree_acyclic(maze@, visited@, start);
        }
        maze
    }
}

} // verus!

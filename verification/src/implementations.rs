//! Concrete maze-solving strategies implementing [`crate::Algorithm`].

use vstd::prelude::*;

use crate::algorithm::Algorithm;
use crate::error::SolveError;
use crate::executor::{copy_positions, Context, Guess, Insight};
use crate::labyrinth::contains_pos;
use crate::position::Pos;

verus! {

broadcast use vstd::seq_lib::lemma_seq_contains_after_push;

/// Frame of the stack used by a [`DepthFirst`] to retain its path and
/// the branches it has not tried yet.
pub struct Frame {
    position: Pos,
    remaining_branches: Vec<Pos>,
}

impl Frame {
    /// The cell this frame stands for.
    pub closed spec fn spec_position(&self) -> Pos {
        self.position
    }

    /// The branches not yet tried from that cell, in insight order,
    /// consumed from the back.
    pub closed spec fn spec_branches(&self) -> Seq<Pos> {
        self.remaining_branches@
    }
}

/// The positions of the stack's frames, bottom first.
pub open spec fn stack_positions(s: Seq<Frame>) -> Seq<Pos> {
    s.map_values(|f: Frame| f.spec_position())
}

/// Whether some frame of the stack still holds an untried branch lying
/// outside the visited set.
pub open spec fn has_viable_branch(s: Seq<Frame>, visited: Seq<Pos>) -> bool {
    exists|i: int, j: int|
        0 <= i < s.len() && 0 <= j < s[i].spec_branches().len() && !visited.contains(
            #[trigger] s[i].spec_branches()[j],
        )
}

/// Whether `q` is among the untried branches of some frame of the stack.
pub open spec fn stack_has_branch(s: Seq<Frame>, q: Pos) -> bool {
    exists|i: int| 0 <= i < s.len() && (#[trigger] s[i].spec_branches()).contains(q)
}

/// Whether some branch of the list lies outside the visited set.
pub open spec fn has_unvisited(branches: Seq<Pos>, visited: Seq<Pos>) -> bool {
    exists|j: int| 0 <= j < branches.len() && !visited.contains(#[trigger] branches[j])
}

/// A stack holds a viable branch after a frame is pushed exactly when it
/// held one before or the new frame brings an unvisited branch.
proof fn lemma_viable_push(s: Seq<Frame>, f: Frame, visited: Seq<Pos>)
    ensures
        has_viable_branch(s.push(f), visited) <==> (has_viable_branch(s, visited) || has_unvisited(
            f.spec_branches(),
            visited,
        )),
{
    let s2 = s.push(f);
    if has_viable_branch(s2, visited) {
        let (i, j): (int, int) = choose|i: int, j: int|
            0 <= i < s2.len() && 0 <= j < s2[i].spec_branches().len() && !visited.contains(
                #[trigger] s2[i].spec_branches()[j],
            );
        if i < s.len() {
            assert(s2[i] == s[i]);
            assert(has_viable_branch(s, visited));
        } else {
            assert(s2[i] == f);
        }
    }
    if has_viable_branch(s, visited) {
        let (i, j): (int, int) = choose|i: int, j: int|
            0 <= i < s.len() && 0 <= j < s[i].spec_branches().len() && !visited.contains(
                #[trigger] s[i].spec_branches()[j],
            );
        assert(s2[i] == s[i]);
        assert(!visited.contains(s2[i].spec_branches()[j]));
    }
    if has_unvisited(f.spec_branches(), visited) {
        let j = choose|j: int|
            0 <= j < f.spec_branches().len() && !visited.contains(#[trigger] f.spec_branches()[j]);
        assert(s2[s.len() as int] == f);
        assert(!visited.contains(s2[s.len() as int].spec_branches()[j]));
    }
}

/// Sum of the untried-branch counts of all frames, plus one per frame:
/// the work left before the stack can empty.
spec fn stack_measure(s: Seq<Frame>) -> nat
    decreases s.len(),
{
    if s.len() == 0 {
        0
    } else {
        stack_measure(s.drop_last()) + s.last().remaining_branches@.len() + 1
    }
}

/// Strategy driving the resolution of a maze by traversing it as a
/// common graph in depth-first order. Stores the current path and the
/// untried branches in a stack; a cell once visited is never proposed
/// as a frontier again.
pub struct DepthFirst {
    visited: Vec<Pos>,
    stack: Vec<Frame>,
}

impl DepthFirst {
    /// The cells this strategy has marked visited, in first-visit order.
    pub closed spec fn spec_visited(&self) -> Seq<Pos> {
        self.visited@
    }

    /// The retained stack of frames, bottom first.
    pub closed spec fn spec_stack(&self) -> Seq<Frame> {
        self.stack@
    }

    /// Constructor.
    pub fn new() -> (r: Self)
        ensures
            r.inv(),
            r.spec_visited() == Seq::<Pos>::empty(),
            r.spec_stack() == Seq::<Frame>::empty(),
    {
        DepthFirst { visited: Vec::new(), stack: Vec::new() }
    }
}

impl Algorithm for DepthFirst {
    open spec fn inv(&self) -> bool {
        true
    }

    /// Marks the incoming position visited and pushes a frame for it
    /// seeded with the insight's branches, then backtracks through the
    /// stack until an untried, unvisited branch is found; the guess is
    /// the remaining stack's positions followed by that branch. An error
    /// comes exactly when no frame holds an untried branch outside the
    /// visited set; the branch is never a visited cell, so depth-first
    /// visits each cell at most once as a current position.
    fn progress(&mut self, insight: &Insight, ctx: &mut Context<'_>) -> (r: Result<
        Guess,
        SolveError,
    >)
        ensures
            final(self).spec_visited() == (if old(self).spec_visited().contains(
                insight.spec_position(),
            ) {
                old(self).spec_visited()
            } else {
                old(self).spec_visited().push(insight.spec_position())
            }),
            (r is Err) <==> !(has_viable_branch(
                old(self).spec_stack(),
                final(self).spec_visited(),
            ) || has_unvisited(insight.spec_paths(), final(self).spec_visited())),
            r is Err ==> r == Err::<Guess, SolveError>(SolveError::Exhausted)
                && final(self).spec_stack().len() == 0,
            r matches Ok(g) ==> {
                &&& g@.len() == final(self).spec_stack().len() + 1
                &&& g@.drop_last() == stack_positions(final(self).spec_stack())
                &&& !final(self).spec_visited().contains(g@.last())
                &&& stack_positions(final(self).spec_stack()) == stack_positions(
                    old(self).spec_stack(),
                ).push(insight.spec_position()).take(final(self).spec_stack().len() as int)
                &&& stack_has_branch(old(self).spec_stack(), g@.last())
                    || insight.spec_paths().contains(g@.last())
            },
    {
        let position = insight.position();
        let branches = copy_positions(insight.paths());
        if !contains_pos(&self.visited, position) {
            self.visited.push(position);
        }
        let ghost old_stack = self.stack@;
        self.stack.push(Frame { position, remaining_branches: branches });
        let ghost visited_now = self.visited@;
        let ghost stack0 = self.stack@;
        proof {
            assert(stack_positions(stack0) =~= stack_positions(old_stack).push(position));
            assert(stack0.last().spec_branches() == insight.spec_paths());
            lemma_viable_push(old_stack, stack0.last(), visited_now);
            assert(stack_positions(self.stack@) =~= stack_positions(stack0).take(
                self.stack@.len() as int,
            ));
        }
        loop
            invariant
                self.visited@ == visited_now,
                visited_now == (if old(self).spec_visited().contains(insight.spec_position()) {
                    old(self).spec_visited()
                } else {
                    old(self).spec_visited().push(insight.spec_position())
                }),
                visited_now.contains(insight.spec_position()),
                old_stack == old(self).spec_stack(),
                stack0 == old_stack.push(stack0.last()),
                stack0.last().spec_branches() == insight.spec_paths(),
                stack0.last().spec_position() == insight.spec_position(),
                stack_positions(self.stack@) == stack_positions(stack0).take(
                    self.stack@.len() as int,
                ),
                self.stack@.len() <= stack0.len(),
                forall|i: int, j: int|
                    0 <= i < self.stack@.len() && 0 <= j < self.stack@[i].spec_branches().len()
                        ==> (stack_has_branch(
                        old_stack,
                        #[trigger] self.stack@[i].spec_branches()[j],
                    ) || insight.spec_paths().contains(self.stack@[i].spec_branches()[j])),
                has_viable_branch(self.stack@, visited_now) <==> has_viable_branch(
                    stack0,
                    visited_now,
                ),
            decreases stack_measure(self.stack@),
        {
            let ghost stack_pre = self.stack@;
            if self.stack.len() == 0 {
                proof {
                    assert(!has_viable_branch(stack_pre, visited_now));
                    lemma_viable_push(old_stack, stack0.last(), visited_now);
                }
                return Err(SolveError::Exhausted);
            }
            let mut frame = match self.stack.pop() {
                Some(f) => f,
                None => {
                    proof {
                        assert(false);
                    }
                    vstd::pervasive::unreached()
                },
            };
            if frame.remaining_branches.len() > 0 {
                let ghost branches_pre = frame.remaining_branches@;
                let branch = match frame.remaining_branches.pop() {
                    Some(b) => b,
                    None => {
                        proof {
                            assert(false);
                        }
                        vstd::pervasive::unreached()
                    },
                };
                self.stack.push(frame);
                proof {
                    assert(self.stack@.drop_last() =~= stack_pre.drop_last());
                    assert(stack_measure(self.stack@) == stack_measure(stack_pre.drop_last())
                        + stack_pre.last().remaining_branches@.len());
                    assert(stack_measure(stack_pre) == stack_measure(stack_pre.drop_last())
                        + stack_pre.last().remaining_branches@.len() + 1);
                    assert(stack_positions(self.stack@) =~= stack_positions(stack_pre));
                    assert(stack_pre.last().spec_branches() == branches_pre);
                    assert(branches_pre.last() == branch);
                    assert forall|i: int, j: int|
                        0 <= i < self.stack@.len() && 0 <= j
                            < self.stack@[i].spec_branches().len() implies (stack_has_branch(
                        old_stack,
                        #[trigger] self.stack@[i].spec_branches()[j],
                    ) || insight.spec_paths().contains(self.stack@[i].spec_branches()[j])) by {
                        if i < self.stack@.len() - 1 {
                            assert(self.stack@[i] == stack_pre[i]);
                        } else {
                            assert(self.stack@[i].spec_branches()[j] == branches_pre[j]);
                            assert(stack_pre[i].spec_branches()[j] == branches_pre[j]);
                        }
                    }
                }
                if !contains_pos(&self.visited, branch) {
                    proof {
                        // this branch witnesses viability of the original stack
                        assert(stack_pre[stack_pre.len() - 1].spec_branches()[branches_pre.len()
                            - 1] == branch);
                        assert(has_viable_branch(stack_pre, visited_now));
                        lemma_viable_push(old_stack, stack0.last(), visited_now);
                        assert(stack_has_branch(old_stack, branch) || insight.spec_paths().contains(
                            branch,
                        )) by {
                            assert(stack_pre[stack_pre.len() - 1].spec_branches()[branches_pre.len()
                                - 1] == branch);
                        }
                    }
                    let mut path: Vec<Pos> = Vec::new();
                    let mut k: usize = 0;
                    while k < self.stack.len()
                        invariant
                            0 <= k <= self.stack@.len(),
                            path@ == stack_positions(self.stack@).take(k as int),
                        decreases self.stack@.len() - k,
                    {
                        path.push(self.stack[k].position);
                        proof {
                            assert(stack_positions(self.stack@).take(k + 1) =~= stack_positions(
                                self.stack@,
                            ).take(k as int).push(self.stack@[k as int].spec_position()));
                        }
                        k = k + 1;
                    }
                    proof {
                        assert(stack_positions(self.stack@).take(self.stack@.len() as int)
                            =~= stack_positions(self.stack@));
                    }
                    path.push(branch);
                    proof {
                        assert(path@.drop_last() =~= stack_positions(self.stack@));
                    }
                    return Ok(ctx.guess(path));
                } else {
                    proof {
                        // the discarded branch is visited, so viability is unchanged
                        lemma_viable_drop_branch(stack_pre, self.stack@, visited_now);
                    }
                }
            } else {
                proof {
                    assert(stack_measure(stack_pre) == stack_measure(self.stack@)
                        + stack_pre.last().remaining_branches@.len() + 1);
                    assert(stack_positions(self.stack@) =~= stack_positions(stack_pre).take(
                        self.stack@.len() as int,
                    ));
                    assert(stack_positions(stack_pre).take(self.stack@.len() as int)
                        =~= stack_positions(stack0).take(self.stack@.len() as int));
                    // an empty top frame contributes no branches
                    lemma_viable_drop_empty(stack_pre, visited_now);
                }
            }
        }
    }
}

/// Discarding a visited branch from the top frame leaves viability
/// unchanged.
proof fn lemma_viable_drop_branch(pre: Seq<Frame>, post: Seq<Frame>, visited: Seq<Pos>)
    requires
        pre.len() > 0,
        post.len() == pre.len(),
        pre.last().spec_branches().len() > 0,
        visited.contains(pre.last().spec_branches().last()),
        post.last().spec_branches() == pre.last().spec_branches().drop_last(),
        post.last().spec_position() == pre.last().spec_position(),
        forall|i: int| 0 <= i < pre.len() - 1 ==> #[trigger] post[i] == pre[i],
    ensures
        has_viable_branch(post, visited) <==> has_viable_branch(pre, visited),
{
    if has_viable_branch(post, visited) {
        let (i, j): (int, int) = choose|i: int, j: int|
            0 <= i < post.len() && 0 <= j < post[i].spec_branches().len() && !visited.contains(
                #[trigger] post[i].spec_branches()[j],
            );
        if i < pre.len() - 1 {
            assert(!visited.contains(pre[i].spec_branches()[j]));
        } else {
            assert(post[i].spec_branches()[j] == pre[i].spec_branches()[j]);
            assert(!visited.contains(pre[i].spec_branches()[j]));
        }
    }
    if has_viable_branch(pre, visited) {
        let (i, j): (int, int) = choose|i: int, j: int|
            0 <= i < pre.len() && 0 <= j < pre[i].spec_branches().len() && !visited.contains(
                #[trigger] pre[i].spec_branches()[j],
            );
        if i < pre.len() - 1 {
            assert(!visited.contains(post[i].spec_branches()[j]));
        } else {
            assert(j < pre.last().spec_branches().len() - 1);
            assert(post[i].spec_branches()[j] == pre[i].spec_branches()[j]);
            assert(!visited.contains(post[i].spec_branches()[j]));
        }
    }
}

/// Dropping a frame without branches leaves viability unchanged.
proof fn lemma_viable_drop_empty(pre: Seq<Frame>, visited: Seq<Pos>)
    requires
        pre.len() > 0,
        pre.last().spec_branches().len() == 0,
    ensures
        has_viable_branch(pre.drop_last(), visited) <==> has_viable_branch(pre, visited),
{
    let post = pre.drop_last();
    if has_viable_branch(post, visited) {
        let (i, j): (int, int) = choose|i: int, j: int|
            0 <= i < post.len() && 0 <= j < post[i].spec_branches().len() && !visited.contains(
                #[trigger] post[i].spec_branches()[j],
            );
        assert(pre[i] == post[i]);
        assert(!visited.contains(pre[i].spec_branches()[j]));
    }
    if has_viable_branch(pre, visited) {
        let (i, j): (int, int) = choose|i: int, j: int|
            0 <= i < pre.len() && 0 <= j < pre[i].spec_branches().len() && !visited.contains(
                #[trigger] pre[i].spec_branches()[j],
            );
        assert(i < pre.len() - 1);
        assert(post[i] == pre[i]);
        assert(!visited.contains(post[i].spec_branches()[j]));
    }
}

/// Strategy traversing the maze as a common graph in breadth-first
/// order: it keeps every candidate partial path, shortest first, and
/// extends the oldest one on each call. Most effective when the
/// resolution is among the shortest possible paths.
pub struct BreathFirst {
    paths: Vec<Vec<Pos>>,
    visited: Vec<Pos>,
    last_path: Vec<Pos>,
}

/// The views of the queued candidate paths, front first.
pub open spec fn queue_views(q: Seq<Vec<Pos>>) -> Seq<Seq<Pos>> {
    q.map_values(|v: Vec<Pos>| v@)
}

/// The candidate paths enqueued for one insight: the base path extended
/// by each branch not in the visited set, one per branch, in branch
/// order.
pub open spec fn extensions(base: Seq<Pos>, branches: Seq<Pos>, visited: Seq<Pos>) -> Seq<
    Seq<Pos>,
>
    decreases branches.len(),
{
    if branches.len() == 0 {
        Seq::empty()
    } else {
        let rest = extensions(base, branches.drop_last(), visited);
        if visited.contains(branches.last()) {
            rest
        } else {
            rest.push(base.push(branches.last()))
        }
    }
}

/// Every enqueued candidate extends the base by one unvisited branch:
/// it is one cell longer than the base and ends outside the visited set.
proof fn lemma_extensions_shape(base: Seq<Pos>, branches: Seq<Pos>, visited: Seq<Pos>)
    ensures
        forall|i: int|
            0 <= i < extensions(base, branches, visited).len() ==> ((#[trigger] extensions(
                base,
                branches,
                visited,
            )[i]).len() == base.len() + 1 && !visited.contains(
                extensions(base, branches, visited)[i].last(),
            )),
    decreases branches.len(),
{
    if branches.len() > 0 {
        lemma_extensions_shape(base, branches.drop_last(), visited);
        let rest = extensions(base, branches.drop_last(), visited);
        if !visited.contains(branches.last()) {
            assert forall|i: int|
                0 <= i < extensions(base, branches, visited).len() implies ((#[trigger] extensions(
                base,
                branches,
                visited,
            )[i]).len() == base.len() + 1 && !visited.contains(
                extensions(base, branches, visited)[i].last(),
            )) by {
                if i < rest.len() {
                    assert(extensions(base, branches, visited)[i] == rest[i]);
                } else {
                    assert(extensions(base, branches, visited)[i] == base.push(branches.last()));
                }
            }
        }
    }
}

impl BreathFirst {
    /// The cells this strategy has marked visited, in first-visit order.
    pub closed spec fn spec_visited(&self) -> Seq<Pos> {
        self.visited@
    }

    /// The FIFO queue of candidate partial paths, front first.
    pub closed spec fn spec_queue(&self) -> Seq<Vec<Pos>> {
        self.paths@
    }

    /// The most recently returned path.
    pub closed spec fn spec_last_path(&self) -> Seq<Pos> {
        self.last_path@
    }

    /// Constructor.
    pub fn new() -> (r: Self)
        ensures
            r.inv(),
            r.spec_visited() == Seq::<Pos>::empty(),
            r.spec_queue() == Seq::<Vec<Pos>>::empty(),
            r.spec_last_path() == Seq::<Pos>::empty(),
    {
        BreathFirst { paths: Vec::new(), visited: Vec::new(), last_path: Vec::new() }
    }
}

impl Algorithm for BreathFirst {
    /// Every queued candidate path is non-empty; the queued lengths are
    /// non-decreasing from front to back (FIFO consumption preserves
    /// breadth-first layering); and every queued candidate is at most
    /// one cell longer, and no shorter, than the last returned path.
    open spec fn inv(&self) -> bool {
        &&& forall|i: int|
            0 <= i < self.spec_queue().len() ==> (#[trigger] self.spec_queue()[i])@.len() > 0
        &&& forall|i: int, j: int|
            0 <= i <= j < self.spec_queue().len() ==> (#[trigger] self.spec_queue()[i])@.len() <= (
            #[trigger] self.spec_queue()[j])@.len()
        &&& forall|i: int|
            0 <= i < self.spec_queue().len() ==> self.spec_last_path().len() <= (
            #[trigger] self.spec_queue()[i])@.len() <= self.spec_last_path().len() + 1
    }

    /// Marks the incoming position visited, appends to the back of the
    /// queue one candidate per branch not yet visited (the last returned
    /// path extended by that branch, in branch order — a cell already
    /// marked visited is never enqueued again), then pops the front of
    /// the queue, remembers it as the last returned path, and returns
    /// it. An error comes exactly when the queue is empty after the
    /// enqueuing.
    fn progress(&mut self, insight: &Insight, ctx: &mut Context<'_>) -> (r: Result<
        Guess,
        SolveError,
    >)
        ensures
            final(self).spec_visited() == (if old(self).spec_visited().contains(
                insight.spec_position(),
            ) {
                old(self).spec_visited()
            } else {
                old(self).spec_visited().push(insight.spec_position())
            }),
            (r is Err) <==> (queue_views(old(self).spec_queue()) + extensions(
                old(self).spec_last_path(),
                insight.spec_paths(),
                final(self).spec_visited(),
            )).len() == 0,
            r is Err ==> r == Err::<Guess, SolveError>(SolveError::Exhausted)
                && final(self).spec_queue().len() == 0 && final(self).spec_last_path()
                == old(self).spec_last_path(),
            r matches Ok(g) ==> {
                let q1 = queue_views(old(self).spec_queue()) + extensions(
                    old(self).spec_last_path(),
                    insight.spec_paths(),
                    final(self).spec_visited(),
                );
                &&& g@ == q1[0]
                &&& queue_views(final(self).spec_queue()) == q1.drop_first()
                &&& final(self).spec_last_path() == g@
                &&& old(self).spec_last_path().len() <= g@.len() <= old(self).spec_last_path().len()
                    + 1
            },
            forall|i: int|
                0 <= i < final(self).spec_queue().len() ==> (queue_views(
                    old(self).spec_queue(),
                ).contains(#[trigger] queue_views(final(self).spec_queue())[i])
                    || !final(self).spec_visited().contains(
                    queue_views(final(self).spec_queue())[i].last(),
                )),
    {
        let position = insight.position();
        if !contains_pos(&self.visited, position) {
            self.visited.push(position);
        }
        let ghost visited_now = self.visited@;
        proof {
            assert(self.paths@ == old(self).paths@);
            assert forall|i: int| 0 <= i < self.paths@.len() implies (#[trigger] self.paths@[i])@
                .len() > 0 by {
                assert(old(self).spec_queue()[i] == self.paths@[i]);
                assert((old(self).spec_queue()[i])@.len() > 0);
            }
        }
        let branches = insight.paths();
        let base = copy_positions(&self.last_path);
        let mut k: usize = 0;
        proof {
            assert(insight.spec_paths().take(0) =~= Seq::<Pos>::empty());
            assert(queue_views(self.paths@) =~= queue_views(old(self).spec_queue()) + extensions(
                base@,
                insight.spec_paths().take(0),
                visited_now,
            ));
        }
        while k < branches.len()
            invariant
                self.visited@ == visited_now,
                visited_now == (if old(self).spec_visited().contains(insight.spec_position()) {
                    old(self).spec_visited()
                } else {
                    old(self).spec_visited().push(insight.spec_position())
                }),
                branches@ == insight.spec_paths(),
                base@ == old(self).spec_last_path(),
                self.last_path@ == old(self).spec_last_path(),
                0 <= k <= branches@.len(),
                queue_views(self.paths@) == queue_views(old(self).spec_queue()) + extensions(
                    base@,
                    insight.spec_paths().take(k as int),
                    visited_now,
                ),
                forall|i: int| 0 <= i < self.paths@.len() ==> (#[trigger] self.paths@[i])@.len()
                    > 0,
                forall|i: int, j: int|
                    0 <= i <= j < self.paths@.len() ==> (#[trigger] self.paths@[i])@.len() <= (
                    #[trigger] self.paths@[j])@.len(),
                forall|i: int|
                    0 <= i < self.paths@.len() ==> base@.len() <= (#[trigger] self.paths@[i])@.len()
                        <= base@.len() + 1,
            decreases branches@.len() - k,
        {
            let branch = branches[k];
            proof {
                assert(insight.spec_paths().take(k + 1).drop_last() =~= insight.spec_paths().take(
                    k as int,
                ));
                assert(insight.spec_paths().take(k + 1).last() == branch);
            }
            if !contains_pos(&self.visited, branch) {
                let mut new_path = copy_positions(&base);
                new_path.push(branch);
                let ghost queue_pre = self.paths@;
                self.paths.push(new_path);
                proof {
                    assert(queue_views(self.paths@) =~= queue_views(queue_pre).push(new_path@));
                    assert(new_path@ == base@.push(branch));
                    assert forall|i: int, j: int|
                        0 <= i <= j < self.paths@.len() implies (#[trigger] self.paths@[i])@.len()
                        <= (#[trigger] self.paths@[j])@.len() by {
                        if j < queue_pre.len() {
                            assert(self.paths@[i] == queue_pre[i]);
                            assert(self.paths@[j] == queue_pre[j]);
                        } else {
                            assert(self.paths@[j]@ == new_path@);
                            if i < queue_pre.len() {
                                assert(self.paths@[i] == queue_pre[i]);
                            }
                        }
                    }
                }
            }
            k = k + 1;
        }
        proof {
            assert(insight.spec_paths().take(branches@.len() as int) =~= insight.spec_paths());
        }
        if self.paths.len() == 0 {
            return Err(SolveError::Exhausted);
        }
        let ghost queue_pre = self.paths@;
        let next = self.paths.remove(0);
        proof {
            assert(queue_pre[0] == next);
            assert(queue_views(self.paths@) =~= queue_views(queue_pre).drop_first()) by {
                assert forall|i: int|
                    0 <= i < self.paths@.len() implies #[trigger] queue_views(self.paths@)[i]
                    == queue_views(queue_pre).drop_first()[i] by {
                    assert(self.paths@[i] == queue_pre.remove(0)[i]);
                    assert(queue_pre.remove(0)[i] == queue_pre[i + 1]);
                }
            }
            assert(queue_views(queue_pre)[0] == next@);
            lemma_extensions_shape(base@, insight.spec_paths(), visited_now);
            assert forall|i: int|
                0 <= i < self.paths@.len() implies (queue_views(old(self).spec_queue()).contains(
                #[trigger] queue_views(self.paths@)[i],
            ) || !visited_now.contains(queue_views(self.paths@)[i].last())) by {
                let old_views = queue_views(old(self).spec_queue());
                let exts = extensions(base@, insight.spec_paths(), visited_now);
                assert(queue_views(self.paths@)[i] == queue_views(queue_pre)[i + 1]);
                if i + 1 < old_views.len() {
                    assert(queue_views(queue_pre)[i + 1] == old_views[i + 1]);
                } else {
                    assert(queue_views(queue_pre)[i + 1] == exts[i + 1 - old_views.len()]);
                }
            }
        }
        proof {
            // the layering bounds carry over: the remaining candidates are
            // no shorter than the returned path and at most one longer
            let ghost lp_new = next@;
            assert(base@.len() <= lp_new.len() <= base@.len() + 1);
            assert forall|i: int|
                0 <= i < self.paths@.len() implies lp_new.len() <= (#[trigger] self.paths@[i])@
                .len() <= lp_new.len() + 1 by {
                assert(self.paths@[i] == queue_pre[i + 1]);
                assert(queue_pre[0]@.len() <= queue_pre[i + 1]@.len());
            }
        }
        self.last_path = copy_positions(&next);
        Ok(ctx.guess(next))
    }
}

} // verus!

use vstd::prelude::*;

use std::time::Instant;

use crate::clock::elapsed_since;
use crate::maze::Maze;
use crate::solver::search::{
    exact_depths, lemma_closed_tree_holds_reachable, lemma_marked_trace, lemma_tree_reachable, mark_solution_path,
    reconstruct_path, solver_output_ok, trace_consistent, tree_ok, ParentGrid, Position, SearchStep, SolutionStats,
    SolverOutput,
};

verus! {

/// The cells a run explored, in order: the upper-left corner, then the cell
/// that each recorded move reached.
pub open spec fn explored_cells(trace: Seq<SearchStep>) -> Seq<Position> {
    seq![Maze::start()] + trace.map_values(|s: SearchStep| s.to)
}

/// Each recorded move leaves a cell explored before the cell it reaches.
pub open spec fn explores_from_explored(out: SolverOutput) -> bool {
    forall|i: int|
        0 <= i < out.trace@.len() ==> explored_cells(out.trace@).subrange(0, i + 1).contains(
            (#[trigger] out.trace@[i]).from,
        )
}

/// A search stops at the exit when it finds a path; when it finds none, it
/// has explored exactly the cells that can be reached.
pub open spec fn search_ends(m: &Maze, out: SolverOutput) -> bool {
    match out.path {
        Some(_) => explored_cells(out.trace@).last() == m.exit(),
        None => forall|p: Position| m.reachable(Maze::start(), p) <==> #[trigger] explored_cells(out.trace@).contains(p),
    }
}

/// `p` can be reached from the upper-left corner in at most `n` moves.
pub open spec fn within(m: &Maze, p: Position, n: int) -> bool {
    exists|s: Seq<Position>| #[trigger] m.is_walk_between(s, Maze::start(), p) && s.len() <= n + 1
}

/// The cells are explored in order of their distance from the upper-left
/// corner: a cell explored before another is at most as far as it.
pub open spec fn explored_by_distance(m: &Maze, out: SolverOutput) -> bool {
    forall|i: int, j: int, n: int|
        0 <= i < j < explored_cells(out.trace@).len() && #[trigger] within(m, explored_cells(out.trace@)[j], n)
            ==> #[trigger] within(m, explored_cells(out.trace@)[i], n)
}

/// Each move of the path found is one of the recorded moves.
pub open spec fn path_recorded(out: SolverOutput) -> bool {
    match out.path {
        Some(p) => forall|i: int|
            0 <= i < p@.len() - 1 ==> exists|j: int|
                0 <= j < out.trace@.len() && (#[trigger] out.trace@[j]).from == #[trigger] p@[i] && out.trace@[j].to == p@[i + 1],
        None => true,
    }
}

/// How a search explores: no cell twice, each recorded move leaving a cell
/// explored before, ending as `search_ends` says, and finding the path along
/// recorded moves.
pub open spec fn exploration_ok(m: &Maze, out: SolverOutput) -> bool {
    &&& explored_cells(out.trace@).no_duplicates()
    &&& explores_from_explored(out)
    &&& search_ends(m, out)
    &&& path_recorded(out)
}

/// The recorded moves reach the explored cells after the first, in order,
/// each from a cell explored before.
pub open spec fn explored_in_order(trace: Seq<SearchStep>, done: Seq<Position>) -> bool {
    &&& trace.len() == (if done.len() == 0 { 0 } else { done.len() - 1 })
    &&& forall|i: int|
        0 <= i < trace.len() ==> (#[trigger] trace[i]).to == done[i + 1] && done.subrange(0, i + 1).contains(trace[i].from)
}

/// The moves in order, extended by the move that reached the cell explored
/// last, from a cell explored before it.
pub proof fn lemma_in_order_push(trace: Seq<SearchStep>, done: Seq<Position>, p: Position, after: Seq<SearchStep>)
    requires
        explored_in_order(trace, done),
        done.len() == 0 ==> after == trace,
        done.len() > 0 ==> after.len() == trace.len() + 1 && after.drop_last() == trace && after.last().to == p
            && done.contains(after.last().from),
    ensures
        explored_in_order(after, done.push(p)),
{
    let done2 = done.push(p);
    assert forall|i: int| 0 <= i < after.len() implies (#[trigger] after[i]).to == done2[i + 1] && done2.subrange(
        0,
        i + 1,
    ).contains(after[i].from) by {
        if i < trace.len() {
            assert(after[i] == trace[i]);
            assert(done2.subrange(0, i + 1) =~= done.subrange(0, i + 1));
        } else {
            assert(done2.subrange(0, i + 1) =~= done);
        }
    }
}

/// The explored cells of a run whose moves follow `done` in order, with the
/// solution flags of the moves set to anything.
pub proof fn lemma_explored_in_order(done: Seq<Position>, trace: Seq<SearchStep>, marked: Seq<SearchStep>)
    requires
        done.len() > 0,
        done[0] == Maze::start(),
        explored_in_order(trace, done),
        marked.len() == trace.len(),
        forall|i: int| 0 <= i < trace.len() ==> (#[trigger] marked[i]).to == trace[i].to && marked[i].from == trace[i].from,
    ensures
        explored_cells(marked) == done,
        forall|i: int| 0 <= i < marked.len() ==> explored_cells(marked).subrange(0, i + 1).contains((#[trigger] marked[i]).from),
{
    let e = explored_cells(marked);
    assert forall|i: int| 0 <= i < e.len() implies e[i] == done[i] by {
        if i > 0 {
            assert(marked[i - 1].to == trace[i - 1].to);
        }
    }
    assert(e =~= done);
    assert forall|i: int| 0 <= i < marked.len() implies e.subrange(0, i + 1).contains((#[trigger] marked[i]).from) by {
        assert(trace[i].from == marked[i].from);
    }
}

/// The cells reached by a search, split into those explored, in order, and
/// those waiting. Each waiting cell, and each explored cell after the first,
/// was reached from a cell explored before it.
#[verifier::opaque]
pub open spec fn search_split(m: &Maze, t: &ParentGrid, pending: Seq<Position>, done: Seq<Position>) -> bool {
    &&& done.no_duplicates()
    &&& pending.no_duplicates()
    &&& forall|i: int| 0 <= i < done.len() ==> m.in_bounds(#[trigger] done[i]) && t.recorded(done[i])
    &&& forall|i: int| 0 <= i < pending.len() ==> m.in_bounds(#[trigger] pending[i]) && t.recorded(pending[i])
    &&& forall|v: Position| m.in_bounds(v) && #[trigger] t.recorded(v) ==> (done.contains(v) <==> !pending.contains(v))
    &&& forall|i: int|
        0 <= i < pending.len() && pending[i] != Maze::start() ==> done.contains(t.at(#[trigger] pending[i])->0)
    &&& forall|k: int| 0 < k < done.len() ==> done.subrange(0, k).contains(t.at(#[trigger] done[k])->0)
    &&& done.len() > 0 ==> done[0] == Maze::start()
    &&& done.len() == 0 ==> pending == seq![Maze::start()]
}

/// The recorded moves are those that reached the explored cells after the
/// first, in order.
pub open spec fn trace_follows(t: &ParentGrid, trace: Seq<SearchStep>, done: Seq<Position>) -> bool {
    &&& trace.len() == (if done.len() == 0 { 0 } else { done.len() - 1 })
    &&& forall|i: int|
        0 <= i < trace.len() ==> (#[trigger] trace[i]).to == done[i + 1] && trace[i].from == t.at(done[i + 1])->0
}

/// The search at its start: the upper-left corner waits, nothing is explored.
pub proof fn lemma_split_started(m: &Maze, t: &ParentGrid)
    requires
        m.in_bounds(Maze::start()),
        t.recorded(Maze::start()),
        forall|v: Position| m.in_bounds(v) && #[trigger] t.recorded(v) ==> v == Maze::start(),
    ensures
        search_split(m, t, seq![Maze::start()], Seq::empty()),
        trace_follows(t, Seq::empty(), Seq::empty()),
{
    reveal(search_split);
    let s = seq![Maze::start()];
    assert forall|v: Position| m.in_bounds(v) && #[trigger] t.recorded(v) implies (Seq::<Position>::empty().contains(v)
        <==> !s.contains(v)) by {
        assert(s[0] == v);
    }
}

/// The explored cells lie on the grid and have been reached.
pub proof fn lemma_split_done(m: &Maze, t: &ParentGrid, pending: Seq<Position>, done: Seq<Position>)
    requires
        search_split(m, t, pending, done),
    ensures
        forall|k: int| 0 <= k < done.len() ==> m.in_bounds(#[trigger] done[k]) && t.recorded(done[k]),
{
    reveal(search_split);
}

/// The waiting cells are distinct reached cells, and a reached cell is
/// explored exactly when it is not waiting.
pub proof fn lemma_split_pending(m: &Maze, t: &ParentGrid, pending: Seq<Position>, done: Seq<Position>)
    requires
        search_split(m, t, pending, done),
    ensures
        pending.no_duplicates(),
        forall|i: int| 0 <= i < pending.len() ==> m.in_bounds(#[trigger] pending[i]) && t.recorded(pending[i]),
        forall|v: Position| m.in_bounds(v) && #[trigger] t.recorded(v) ==> (done.contains(v) <==> !pending.contains(v)),
        done.len() == 0 ==> pending == seq![Maze::start()],
        done.len() > 0 ==> done[0] == Maze::start(),
{
    reveal(search_split);
}

/// Each explored cell after the first has its parent explored before it.
pub proof fn lemma_split_parents(m: &Maze, t: &ParentGrid, pending: Seq<Position>, done: Seq<Position>)
    requires
        search_split(m, t, pending, done),
    ensures
        forall|k: int| 0 < k < done.len() ==> done.subrange(0, k).contains(t.at(#[trigger] done[k])->0),
        done.no_duplicates(),
        done.len() > 0 ==> done[0] == Maze::start(),
{
    reveal(search_split);
}

/// Taking the waiting cell at index `i` explores it next.
pub proof fn lemma_split_take(m: &Maze, t: &ParentGrid, pending: Seq<Position>, done: Seq<Position>, i: int)
    requires
        search_split(m, t, pending, done),
        0 <= i < pending.len(),
    ensures
        search_split(m, t, pending.remove(i), done.push(pending[i])),
        done.len() > 0 ==> pending[i] != Maze::start(),
        done.len() > 0 ==> done.contains(t.at(pending[i])->0),
        done.len() == 0 ==> pending[i] == Maze::start(),
{
    reveal(search_split);
    let p = pending[i];
    let pending2 = pending.remove(i);
    let done2 = done.push(p);
    assert(!done.contains(p));
    if done.len() > 0 {
        assert(done[0] == Maze::start());
        if p == Maze::start() {
            assert(done.contains(p));
        }
    }
    assert forall|j: int| 0 <= j < pending2.len() implies m.in_bounds(#[trigger] pending2[j]) && t.recorded(pending2[j])
        && pending2[j] != p by {
        if j < i {
            assert(pending2[j] == pending[j]);
        } else {
            assert(pending2[j] == pending[j + 1]);
        }
    }
    assert forall|v: Position| m.in_bounds(v) && #[trigger] t.recorded(v) implies (done2.contains(v) <==> !pending2.contains(
        v,
    )) by {
        if pending2.contains(v) {
            let j = choose|j: int| 0 <= j < pending2.len() && pending2[j] == v;
            if j < i {
                assert(pending[j] == v);
            } else {
                assert(pending[j + 1] == v);
            }
            if done2.contains(v) {
                let k = choose|k: int| 0 <= k < done2.len() && done2[k] == v;
                if k < done.len() {
                    assert(done[k] == v);
                }
            }
        } else {
            if !done.contains(v) {
                assert(pending.contains(v));
                let j = choose|j: int| 0 <= j < pending.len() && pending[j] == v;
                if j != i {
                    if j < i {
                        assert(pending2[j] == v);
                    } else {
                        assert(pending2[j - 1] == v);
                    }
                }
                assert(done2[done.len() as int] == v);
            } else {
                let k = choose|k: int| 0 <= k < done.len() && done[k] == v;
                assert(done2[k] == v);
            }
        }
    }
    assert forall|j: int| 0 <= j < pending2.len() && pending2[j] != Maze::start() implies done2.contains(
        t.at(#[trigger] pending2[j])->0,
    ) by {
        let q = if j < i { j } else { j + 1 };
        assert(pending2[j] == pending[q]);
        let k = choose|k: int| 0 <= k < done.len() && done[k] == t.at(pending[q])->0;
        assert(done2[k] == done[k]);
    }
    assert forall|k: int| 0 < k < done2.len() implies done2.subrange(0, k).contains(t.at(#[trigger] done2[k])->0) by {
        if k < done.len() {
            assert(done2[k] == done[k]);
            assert(done2.subrange(0, k) =~= done.subrange(0, k));
        } else {
            assert(done2[k] == p);
            assert(done2.subrange(0, k) =~= done);
        }
    }
    assert forall|j: int| 0 <= j < done2.len() implies m.in_bounds(#[trigger] done2[j]) && t.recorded(done2[j]) by {
        if j < done.len() {
            assert(done2[j] == done[j]);
        }
    }
    if done.len() == 0 {
        assert(pending == seq![Maze::start()]);
    }
}

/// Reaching the unreached cell `v` from the explored cell `current` makes it
/// wait at the end of the waiting cells.
pub proof fn lemma_split_discovered(
    m: &Maze,
    t0: &ParentGrid,
    t1: &ParentGrid,
    pending: Seq<Position>,
    done: Seq<Position>,
    trace: Seq<SearchStep>,
    current: Position,
    v: Position,
)
    requires
        search_split(m, t0, pending, done),
        trace_follows(t0, trace, done),
        done.contains(current),
        m.in_bounds(v),
        !t0.recorded(v),
        t1.at(v) == Some(current),
        forall|q: Position| m.in_bounds(q) && q != v ==> #[trigger] t1.at(q) == t0.at(q),
    ensures
        search_split(m, t1, pending.push(v), done),
        trace_follows(t1, trace, done),
{
    reveal(search_split);
    let pending2 = pending.push(v);
    assert(done.len() > 0);
    assert forall|i: int| 0 <= i < done.len() implies m.in_bounds(#[trigger] done[i]) && t1.recorded(done[i]) && done[i]
        != v by {
        assert(t0.recorded(done[i]));
    }
    assert forall|i: int| 0 <= i < pending2.len() implies m.in_bounds(#[trigger] pending2[i]) && t1.recorded(pending2[i]) by {
        if i < pending.len() {
            assert(pending2[i] == pending[i]);
            assert(t0.recorded(pending[i]));
        }
    }
    assert(!pending.contains(v)) by {
        if pending.contains(v) {
            let i = choose|i: int| 0 <= i < pending.len() && pending[i] == v;
            assert(t0.recorded(pending[i]));
        }
    }
    assert(!done.contains(v));
    assert forall|u: Position| m.in_bounds(u) && #[trigger] t1.recorded(u) implies (done.contains(u) <==> !pending2.contains(
        u,
    )) by {
        if u == v {
            assert(pending2[pending.len() as int] == v);
        } else {
            assert(t0.recorded(u));
            if pending2.contains(u) {
                let i = choose|i: int| 0 <= i < pending2.len() && pending2[i] == u;
                assert(pending[i] == u);
            }
            if pending.contains(u) {
                let i = choose|i: int| 0 <= i < pending.len() && pending[i] == u;
                assert(pending2[i] == u);
            }
        }
    }
    assert forall|i: int| 0 <= i < pending2.len() && pending2[i] != Maze::start() implies done.contains(
        t1.at(#[trigger] pending2[i])->0,
    ) by {
        if i < pending.len() {
            assert(pending2[i] == pending[i]);
            assert(t0.recorded(pending[i]));
        }
    }
    assert forall|k: int| 0 < k < done.len() implies done.subrange(0, k).contains(t1.at(#[trigger] done[k])->0) by {
        assert(t0.recorded(done[k]));
    }
    assert forall|i: int| 0 <= i < trace.len() implies (#[trigger] trace[i]).to == done[i + 1] && trace[i].from == t1.at(
        done[i + 1],
    )->0 by {
        assert(t0.recorded(done[i + 1]));
    }
}

/// The recorded moves, extended by the move that reached the cell explored
/// last.
pub proof fn lemma_trace_follows_push(
    t: &ParentGrid,
    trace: Seq<SearchStep>,
    done: Seq<Position>,
    p: Position,
    after: Seq<SearchStep>,
)
    requires
        trace_follows(t, trace, done),
        done.len() == 0 ==> after == trace,
        done.len() > 0 ==> after.len() == trace.len() + 1 && after.drop_last() == trace && after.last().to == p
            && after.last().from == t.at(p)->0,
    ensures
        trace_follows(t, after, done.push(p)),
{
    let done2 = done.push(p);
    assert forall|i: int| 0 <= i < after.len() implies (#[trigger] after[i]).to == done2[i + 1] && after[i].from == t.at(
        done2[i + 1],
    )->0 by {
        if i < trace.len() {
            assert(after[i] == trace[i]);
        }
    }
}

/// The path that follows the parents back from the exit runs along the
/// recorded moves.
pub proof fn lemma_path_recorded(
    m: &Maze,
    t: &ParentGrid,
    pending: Seq<Position>,
    done: Seq<Position>,
    trace: Seq<SearchStep>,
    marked: Seq<SearchStep>,
    path: Seq<Position>,
)
    requires
        search_split(m, t, pending, done),
        done.len() > 0,
        trace_follows(t, trace, done),
        marked.len() == trace.len(),
        forall|i: int| 0 <= i < trace.len() ==> (#[trigger] marked[i]).to == trace[i].to && marked[i].from == trace[i].from,
        path.len() > 0,
        path[0] == Maze::start(),
        path.no_duplicates(),
        done.contains(path.last()),
        forall|i: int| 0 <= i < path.len() - 1 ==> t.at(#[trigger] path[i + 1]) == Some(path[i]),
    ensures
        forall|i: int|
            0 <= i < path.len() - 1 ==> exists|j: int|
                0 <= j < marked.len() && (#[trigger] marked[j]).from == #[trigger] path[i] && marked[j].to == path[i + 1],
{
    reveal(search_split);
    lemma_path_along_parents(t, done, trace, marked, path);
}

/// When the parent of each explored cell after the first was explored
/// before it, the path that follows the parents back from an explored cell
/// runs along the recorded moves.
pub proof fn lemma_path_along_parents(
    t: &ParentGrid,
    done: Seq<Position>,
    trace: Seq<SearchStep>,
    marked: Seq<SearchStep>,
    path: Seq<Position>,
)
    requires
        done.len() > 0,
        done[0] == Maze::start(),
        forall|k: int| 0 < k < done.len() ==> done.subrange(0, k).contains(t.at(#[trigger] done[k])->0),
        trace_follows(t, trace, done),
        marked.len() == trace.len(),
        forall|i: int| 0 <= i < trace.len() ==> (#[trigger] marked[i]).to == trace[i].to && marked[i].from == trace[i].from,
        path.len() > 0,
        path[0] == Maze::start(),
        path.no_duplicates(),
        done.contains(path.last()),
        forall|i: int| 0 <= i < path.len() - 1 ==> t.at(#[trigger] path[i + 1]) == Some(path[i]),
    ensures
        forall|i: int|
            0 <= i < path.len() - 1 ==> exists|j: int|
                0 <= j < marked.len() && (#[trigger] marked[j]).from == #[trigger] path[i] && marked[j].to == path[i + 1],
{
    lemma_path_explored(t, done, path, 0);
    assert forall|i: int| 0 <= i < path.len() - 1 implies exists|j: int|
        0 <= j < marked.len() && (#[trigger] marked[j]).from == #[trigger] path[i] && marked[j].to == path[i + 1] by {
        assert(done.contains(path[i + 1]));
        let k = choose|k: int| 0 <= k < done.len() && done[k] == path[i + 1];
        assert(path[i + 1] != path[0]);
        assert(k > 0);
        assert(trace[k - 1].to == done[k]);
        assert(marked[k - 1].from == path[i]);
    }
}

proof fn lemma_path_explored(t: &ParentGrid, done: Seq<Position>, path: Seq<Position>, i: int)
    requires
        done.len() > 0,
        done[0] == Maze::start(),
        forall|k: int| 0 < k < done.len() ==> done.subrange(0, k).contains(t.at(#[trigger] done[k])->0),
        path.len() > 0,
        path[0] == Maze::start(),
        path.no_duplicates(),
        done.contains(path.last()),
        forall|l: int| 0 <= l < path.len() - 1 ==> t.at(#[trigger] path[l + 1]) == Some(path[l]),
        0 <= i < path.len(),
    ensures
        forall|l: int| i <= l < path.len() ==> done.contains(#[trigger] path[l]),
    decreases path.len() - i,
{
    if i < path.len() - 1 {
        lemma_path_explored(t, done, path, i + 1);
        let k = choose|k: int| 0 <= k < done.len() && done[k] == path[i + 1];
        assert(path[i + 1] != path[0]);
        assert(k > 0);
        assert(t.at(path[i + 1]) == Some(path[i]));
        let q = choose|q: int| 0 <= q < k && done.subrange(0, k)[q] == t.at(done[k])->0;
        assert(done[q] == path[i]);
    }
}

/// A search that explored `done` and stopped after exploring the exit
/// explores as `exploration_ok` says of a run that found a path.
pub proof fn lemma_explored_found(
    m: &Maze,
    t: &ParentGrid,
    pending: Seq<Position>,
    done: Seq<Position>,
    trace: Seq<SearchStep>,
    marked: Seq<SearchStep>,
)
    requires
        search_split(m, t, pending, done),
        trace_follows(t, trace, done),
        done.len() > 0,
        done.last() == m.exit(),
        marked.len() == trace.len(),
        forall|i: int| 0 <= i < trace.len() ==> (#[trigger] marked[i]).to == trace[i].to && marked[i].from == trace[i].from,
    ensures
        explored_cells(marked) == done,
        explored_cells(marked).no_duplicates(),
        forall|i: int| 0 <= i < marked.len() ==> explored_cells(marked).subrange(0, i + 1).contains((#[trigger] marked[i]).from),
        explored_cells(marked).last() == m.exit(),
{
    reveal(search_split);
    lemma_explored_is_done(t, done, trace, marked);
}

/// Ends a search that has just explored the exit: reports the path back
/// along the parents from the exit and flags its moves in the trace.
pub(crate) fn finish_found(
    maze: &Maze,
    came_from: &ParentGrid,
    mut trace: Vec<SearchStep>,
    nodes_explored: usize,
    start_time: Instant,
    algorithm: &'static str,
    Ghost(depth): Ghost<Map<Position, int>>,
    Ghost(pending): Ghost<Seq<Position>>,
    Ghost(done): Ghost<Seq<Position>>,
) -> (out: SolverOutput)
    requires
        maze.well_shaped(),
        tree_ok(maze, came_from, depth, Maze::start()),
        came_from.recorded(maze.exit()),
        nodes_explored >= 1,
        trace@.len() == nodes_explored - 1,
        trace_consistent(maze, trace@, Seq::empty()),
        search_split(maze, came_from, pending, done),
        trace_follows(came_from, trace@, done),
        done.len() > 0,
        done.last() == maze.exit(),
    ensures
        out.path is Some,
        solver_output_ok(maze, out, algorithm@),
        exploration_ok(maze, out),
        explored_cells(out.trace@) == done,
        trace_follows(came_from, out.trace@, done),
        out.stats.nodes_explored == nodes_explored,
        exact_depths(maze, came_from, depth, Maze::start()) ==> out.path->0@.len() == depth[maze.exit()] + 1,
{
    let start: Position = (0, 0);
    let goal: Position = (maze.width - 1, maze.height - 1);
    let path = reconstruct_path(maze, came_from, start, goal, Ghost(depth));
    let ghost unmarked = trace@;
    mark_solution_path(&mut trace, path.as_slice());
    let path_length = path.len();
    proof {
        lemma_marked_trace(maze, unmarked, trace@, path@);
        lemma_explored_found(maze, came_from, pending, done, unmarked, trace@);
        lemma_path_recorded(maze, came_from, pending, done, unmarked, trace@, path@);
        assert(maze.is_walk_between(path@, start, goal));
        assert forall|i: int| 0 <= i < trace@.len() implies (#[trigger] trace@[i]).to == done[i + 1] && trace@[i].from
            == came_from.at(done[i + 1])->0 by {
            assert(trace@[i].to == unmarked[i].to && trace@[i].from == unmarked[i].from);
        }
    }
    SolverOutput {
        path: Some(path),
        trace,
        stats: SolutionStats {
            algorithm,
            solved: true,
            path_length,
            nodes_explored,
            duration: elapsed_since(&start_time),
        },
    }
}

/// A search that explored `done` and has no waiting cell left, in which
/// every move out of a reached cell leads to a reached cell, has explored
/// exactly the reachable cells.
pub proof fn lemma_explored_exhausted(
    m: &Maze,
    t: &ParentGrid,
    depth: Map<Position, int>,
    done: Seq<Position>,
    trace: Seq<SearchStep>,
)
    requires
        search_split(m, t, Seq::empty(), done),
        trace_follows(t, trace, done),
        tree_ok(m, t, depth, Maze::start()),
        forall|v: Position, u: Position| m.in_bounds(v) && t.recorded(v) && #[trigger] m.step(v, u) ==> t.recorded(u),
    ensures
        explored_cells(trace) == done,
        explored_cells(trace).no_duplicates(),
        forall|i: int| 0 <= i < trace.len() ==> explored_cells(trace).subrange(0, i + 1).contains((#[trigger] trace[i]).from),
        forall|p: Position| m.reachable(Maze::start(), p) <==> #[trigger] explored_cells(trace).contains(p),
{
    reveal(search_split);
    if done.len() == 0 {
        assert(seq![Maze::start()].len() == 1);
    }
    lemma_explored_is_done(t, done, trace, trace);
    assert forall|p: Position| m.reachable(Maze::start(), p) <==> #[trigger] done.contains(p) by {
        if m.reachable(Maze::start(), p) {
            lemma_closed_tree_holds_reachable(m, t, depth, Maze::start(), p);
            assert(!Seq::<Position>::empty().contains(p));
        }
        if done.contains(p) {
            let k = choose|k: int| 0 <= k < done.len() && done[k] == p;
            lemma_tree_reachable(m, t, depth, Maze::start(), done[k]);
        }
    }
}

proof fn lemma_explored_is_done(t: &ParentGrid, done: Seq<Position>, trace: Seq<SearchStep>, marked: Seq<SearchStep>)
    requires
        done.no_duplicates(),
        done.len() > 0,
        done[0] == Maze::start(),
        forall|k: int| 0 < k < done.len() ==> done.subrange(0, k).contains(t.at(#[trigger] done[k])->0),
        trace_follows(t, trace, done),
        marked.len() == trace.len(),
        forall|i: int| 0 <= i < trace.len() ==> (#[trigger] marked[i]).to == trace[i].to && marked[i].from == trace[i].from,
    ensures
        explored_cells(marked) == done,
        forall|i: int| 0 <= i < marked.len() ==> explored_cells(marked).subrange(0, i + 1).contains((#[trigger] marked[i]).from),
{
    let e = explored_cells(marked);
    assert forall|i: int| 0 <= i < e.len() implies e[i] == done[i] by {
        if i > 0 {
            assert(marked[i - 1].to == trace[i - 1].to);
        }
    }
    assert(e =~= done);
    assert forall|i: int| 0 <= i < marked.len() implies e.subrange(0, i + 1).contains((#[trigger] marked[i]).from) by {
        assert(trace[i].from == t.at(done[i + 1])->0);
        assert(done.subrange(0, i + 1).contains(t.at(done[i + 1])->0));
    }
}

} // verus!

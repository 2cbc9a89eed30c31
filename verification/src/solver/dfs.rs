use vstd::prelude::*;

use crate::clock::{elapsed_since, instant_now};
use crate::maze::{lemma_step_in_bounds, Maze};
use crate::solver::explore::{
    exploration_ok, explored_cells, finish_found, lemma_explored_exhausted, lemma_split_discovered, lemma_split_started,
    lemma_split_take, lemma_trace_follows_push, search_split, trace_follows,
};
use crate::solver::learned::unreached_in;
use crate::solver::search::{
    direction_of, lemma_closed_tree_holds_reachable, lemma_reached_count_bounds, lemma_tree_extended,
    record_search_step, same_position, solver_output_ok, trace_consistent, tree_link, tree_ok, ParentGrid, Position,
    SearchStep, SolutionStats, SolverOutput,
};
use crate::solver::search_order::{
    depth_first_order, explored_last_reached, lemma_parents_expanded, lemma_parents_output, lemma_parents_push, lemma_parents_started,
    parents_first, reached_from_first, lemma_dfs_order_taken, lemma_order_expanded, lemma_reached_at_start,
    reached_exactly, stack_in_order,
};

verus! {

/// Every cell one step from `v` has been reached.
pub open spec fn all_reached(m: &Maze, t: &ParentGrid, v: Position) -> bool {
    forall|u: Position| #[trigger] m.step(v, u) ==> t.recorded(u)
}

/// The recorded moves so far, one per explored cell after the first.
pub open spec fn trace_so_far(m: &Maze, trace: Seq<SearchStep>, explored: int) -> bool {
    &&& trace.len() == (if explored == 0 { 0 } else { explored - 1 })
    &&& trace_consistent(m, trace, Seq::empty())
}

/// The state of a depth-first search between two explored cells. `except`
/// is a reached cell whose neighbours are being discovered, if any.
pub open spec fn dfs_state(
    m: &Maze,
    t: &ParentGrid,
    depth: Map<Position, int>,
    stack: Seq<Position>,
    explored: int,
    except: Option<Position>,
) -> bool {
    let start = Maze::start();
    let goal = m.exit();
    &&& tree_ok(m, t, depth, start)
    &&& explored >= 0
    &&& forall|i: int| 0 <= i < stack.len() ==> m.in_bounds(#[trigger] stack[i]) && t.recorded(stack[i])
    &&& forall|v: Position|
        m.in_bounds(v) && #[trigger] t.recorded(v) ==> stack.contains(v) || all_reached(m, t, v) || except == Some(v)
    &&& t.reached_count(m.height as int) == explored + stack.len()
    &&& (m.in_bounds(goal) && t.recorded(goal)) ==> stack.contains(goal)
    &&& explored == 0 ==> stack == seq![start]
    &&& explored > 0 ==> !stack.contains(start)
}

/// Solves the maze by depth-first search from the upper-left corner to the
/// lower-right corner, trying the neighbours of each cell in the order
/// north, east, south, west (the last one pushed is explored first).
pub fn solve(maze: &Maze) -> (output: SolverOutput)
    requires
        maze.well_shaped(),
        maze.cells_fit(),
    ensures
        solver_output_ok(maze, output, "DFS"@),
        exploration_ok(maze, output),
        depth_first_order(maze, explored_cells(output.trace@)),
        reached_from_first(maze, output.trace@),
        output.stats.nodes_explored <= maze.width * maze.height,
{
    let start_time = instant_now();
    let start: Position = (0, 0);
    let goal: Position = (maze.width - 1, maze.height - 1);
    let ghost w = maze.width as int;
    let ghost h = maze.height as int;
    let mut nodes_explored: usize = 0;
    let mut trace: Vec<SearchStep> = Vec::new();
    let mut stack: Vec<Position> = Vec::new();
    let mut came_from = ParentGrid::new(maze.width, maze.height);
    let ghost mut depth: Map<Position, int> = Map::empty().insert(start, 0);
    let ghost fresh = came_from;
    stack.push(start);
    came_from.set(start, start, Ghost(w), Ghost(h));
    proof {
        lemma_search_started(maze, &fresh, &came_from, depth, stack@);
        assert forall|v: Position| maze.in_bounds(v) && #[trigger] came_from.recorded(v) implies v == start by {
            assert(!fresh.recorded(v));
        }
        lemma_split_started(maze, &came_from);
        lemma_reached_at_start(maze, &came_from);
        lemma_parents_started(maze, &came_from);
    }
    let ghost mut done: Seq<Position> = Seq::empty();
    while stack.len() > 0
        invariant
            maze.well_shaped(),
            w == maze.width,
            h == maze.height,
            h * w <= usize::MAX,
            h * w == w * h,
            start == Maze::start(),
            goal == maze.exit(),
            dfs_state(maze, &came_from, depth, stack@, nodes_explored as int, None),
            trace_so_far(maze, trace@, nodes_explored as int),
            search_split(maze, &came_from, stack@, done),
            trace_follows(&came_from, trace@, done),
            done.len() == nodes_explored,
            reached_exactly(maze, &came_from, done),
            stack_in_order(maze, stack@, done),
            forall|j: int| 1 <= j < done.len() ==> #[trigger] explored_last_reached(maze, done, j),
            parents_first(maze, &came_from, done),
        decreases h * w - nodes_explored,
    {
        proof {
            lemma_reached_count_bounds(&came_from, w, h);
        }
        let ghost s0 = stack@;
        let current = stack.pop().unwrap();
        let ghost before = nodes_explored;
        nodes_explored = nodes_explored + 1;
        let ghost trace_before = trace@;
        let ghost done_before = done;
        proof {
            lemma_dfs_popped(maze, &came_from, depth, s0, current, before as int);
            assert(s0[s0.len() - 1] == current);
            assert(s0.last() == current);
            lemma_dfs_order_taken(maze, &came_from, s0, done);
            lemma_split_take(maze, &came_from, s0, done, s0.len() - 1);
            assert(stack@ =~= s0.remove(s0.len() - 1));
            done = done.push(current);
        }
        record_search_step(current, start, nodes_explored, &came_from, &mut trace, Ghost(w), Ghost(h));
        proof {
            lemma_step_recorded(maze, &came_from, depth, trace_before, trace@, current, nodes_explored as int);
            if done_before.len() > 0 {
                assert(tree_link(maze, &came_from, depth, current));
                assert(trace@.drop_last() =~= trace_before);
            }
            lemma_trace_follows_push(&came_from, trace_before, done_before, current, trace@);
        }
        if same_position(current, goal) {
            let out = finish_found(
                maze,
                &came_from,
                trace,
                nodes_explored,
                start_time,
                "DFS",
                Ghost(depth),
                Ghost(stack@),
                Ghost(done),
            );
            proof {
                assert(depth_first_order(maze, done));
                lemma_parents_push(maze, &came_from, done_before, current);
                lemma_parents_output(maze, &came_from, stack@, done, out.trace@);
                lemma_reached_count_bounds(&came_from, w, h);
            }
            return out;
        }
        let neighbors = maze.neighbors(current);
        let ghost t0 = came_from;
        let ghost s_mid = stack@;
        proof {
            assert(s_mid =~= s0.drop_last());
        }
        let new_depth = push_unreached(
            maze,
            current,
            &neighbors,
            &mut stack,
            &mut came_from,
            Ghost(depth),
            Ghost(nodes_explored as int),
            Ghost(done),
            Ghost(trace@),
        );
        proof {
            depth = new_depth@;
            lemma_reached_count_bounds(&came_from, w, h);
            lemma_order_expanded(maze, &t0, &came_from, s_mid, stack@, done_before, current);
            lemma_parents_expanded(maze, &t0, &came_from, done_before, current);
        }
    }
    proof {
        lemma_dfs_exhausted(maze, &came_from, depth, nodes_explored as int);
        lemma_reached_count_bounds(&came_from, w, h);
        assert forall|v: Position, u: Position| maze.in_bounds(v) && came_from.recorded(v) && #[trigger] maze.step(v, u) implies came_from.recorded(u) by {
            assert(!Seq::<Position>::empty().contains(v));
            assert(all_reached(maze, &came_from, v));
        }
        assert(stack@ =~= Seq::<Position>::empty());
        lemma_explored_exhausted(maze, &came_from, depth, done, trace@);
        lemma_parents_output(maze, &came_from, stack@, done, trace@);
    }
    SolverOutput {
        path: None,
        trace,
        stats: SolutionStats {
            algorithm: "DFS",
            solved: false,
            path_length: 0,
            nodes_explored,
            duration: elapsed_since(&start_time),
        },
    }
}

/// The search state right after the root was reached and pushed.
pub proof fn lemma_search_started(
    m: &Maze,
    fresh: &ParentGrid,
    t: &ParentGrid,
    depth: Map<Position, int>,
    stack: Seq<Position>,
)
    requires
        m.well_shaped(),
        m.cells_fit(),
        fresh.shaped(m.width as int, m.height as int),
        forall|p: Position| p.0 < m.width && p.1 < m.height ==> !#[trigger] fresh.recorded(p),
        fresh.reached_count(m.height as int) == 0,
        t.shaped(m.width as int, m.height as int),
        t.at(Maze::start()) == Some(Maze::start()),
        forall|q: Position| q.0 < m.width && q.1 < m.height && q != Maze::start() ==> #[trigger] t.at(q) == fresh.at(q),
        t.reached_count(m.height as int) == fresh.reached_count(m.height as int) + 1,
        depth == Map::<Position, int>::empty().insert(Maze::start(), 0),
        stack == seq![Maze::start()],
    ensures
        dfs_state(m, t, depth, stack, 0, None),
        m.height * m.width <= usize::MAX,
        m.height * m.width == m.width * m.height,
{
    let start = Maze::start();
    let w = m.width as int;
    let h = m.height as int;
    assert forall|v: Position| m.in_bounds(v) && #[trigger] t.recorded(v) implies v == start by {
        assert(!fresh.recorded(v));
    }
    assert(stack[0] == start);
    assert(h * w <= usize::MAX) by (nonlinear_arith)
        requires
            2 * w * h <= usize::MAX,
            w >= 1,
            h >= 1,
    ;
    assert(h * w == w * h) by (nonlinear_arith);
}

/// Taking the top of the stack leaves that cell as the one being expanded.
#[verifier::rlimit(40)]
#[verifier::spinoff_prover]
pub proof fn lemma_dfs_popped(
    m: &Maze,
    t: &ParentGrid,
    depth: Map<Position, int>,
    s0: Seq<Position>,
    current: Position,
    explored: int,
)
    requires
        dfs_state(m, t, depth, s0, explored, None),
        s0.len() > 0,
        current == s0.last(),
    ensures
        dfs_state(m, t, depth, s0.subrange(0, s0.len() - 1), explored + 1, Some(current)) || current == m.exit(),
        m.in_bounds(current),
        t.recorded(current),
        (current != Maze::start()) <==> explored > 0,
        current != Maze::start() ==> tree_link(m, t, depth, current),
        t.reached_count(m.height as int) >= explored + 1,
{
    let s = s0.subrange(0, s0.len() - 1);
    let start = Maze::start();
    let goal = m.exit();
    assert(s0[s0.len() - 1] == current);
    assert forall|v: Position|
        m.in_bounds(v) && #[trigger] t.recorded(v) implies s.contains(v) || all_reached(m, t, v) || Some(current) == Some(v) by {
        if s0.contains(v) && v != current {
            let i = choose|i: int| 0 <= i < s0.len() && s0[i] == v;
            assert(i != s0.len() - 1);
            assert(s[i] == v);
        }
    }
    assert forall|i: int| 0 <= i < s.len() implies m.in_bounds(#[trigger] s[i]) && t.recorded(s[i]) by {
        assert(s[i] == s0[i]);
    }
    if m.in_bounds(goal) && t.recorded(goal) && current != goal {
        let i = choose|i: int| 0 <= i < s0.len() && s0[i] == goal;
        assert(s[i] == goal);
    }
    if explored == 0 {
        assert(s0 == seq![start]);
        assert(s.len() == 0);
    } else {
        assert(s0.contains(current));
        if s.contains(start) {
            let i = choose|i: int| 0 <= i < s.len() && s[i] == start;
            assert(s0[i] == start);
        }
    }
    if current != start {
        assert(tree_link(m, t, depth, current));
    }
}

/// The move that reached the explored cell, if it is not the root, was added
/// to the trace.
pub proof fn lemma_step_recorded(
    m: &Maze,
    t: &ParentGrid,
    depth: Map<Position, int>,
    before: Seq<SearchStep>,
    after: Seq<SearchStep>,
    current: Position,
    explored: int,
)
    requires
        explored >= 1,
        trace_so_far(m, before, explored - 1),
        tree_ok(m, t, depth, Maze::start()),
        m.in_bounds(current),
        t.recorded(current),
        (current != Maze::start()) <==> explored > 1,
        current != Maze::start() ==> tree_link(m, t, depth, current),
        (current != Maze::start() && t.at(current) is Some && direction_of(t.at(current)->0, current) is Some)
            ==> after == before.push(
            SearchStep {
                from: t.at(current)->0,
                to: current,
                direction: direction_of(t.at(current)->0, current)->0,
                visit_order: explored as usize,
                on_solution_path: false,
            },
        ),
        !(current != Maze::start() && t.at(current) is Some && direction_of(t.at(current)->0, current) is Some)
            ==> after == before,
        explored <= usize::MAX,
    ensures
        trace_so_far(m, after, explored),
{
    if current != Maze::start() {
        let p = t.at(current)->0;
        assert(m.step(p, current));
        assert forall|i: int| 0 <= i < after.len() implies {
            &&& m.step((#[trigger] after[i]).from, after[i].to)
            &&& direction_of(after[i].from, after[i].to) == Some(after[i].direction)
            &&& after[i].visit_order == i + 2
            &&& after[i].on_solution_path == crate::solver::search::path_has_edge(Seq::empty(), after[i].from, after[i].to)
        } by {
            if i < before.len() {
                assert(after[i] == before[i]);
            }
        }
    }
}

/// Pushes every unreached cell of `neighbors` (the cells one step from
/// `current`, in any order) onto the stack, with `current` as its parent.
pub fn push_unreached(
    maze: &Maze,
    current: Position,
    neighbors: &Vec<Position>,
    stack: &mut Vec<Position>,
    came_from: &mut ParentGrid,
    Ghost(depth): Ghost<Map<Position, int>>,
    Ghost(explored): Ghost<int>,
    Ghost(done): Ghost<Seq<Position>>,
    Ghost(trace): Ghost<Seq<SearchStep>>,
) -> (new_depth: Ghost<Map<Position, int>>)
    requires
        maze.well_shaped(),
        explored >= 1,
        dfs_state(maze, old(came_from), depth, old(stack)@, explored, Some(current)),
        search_split(maze, old(came_from), old(stack)@, done),
        trace_follows(old(came_from), trace, done),
        done.contains(current),
        maze.in_bounds(current),
        old(came_from).recorded(current),
        forall|i: int| 0 <= i < neighbors@.len() ==> maze.step(current, #[trigger] neighbors@[i]),
        forall|u: Position| maze.step(current, u) ==> neighbors@.contains(u),
    ensures
        dfs_state(maze, final(came_from), new_depth@, final(stack)@, explored, None),
        search_split(maze, final(came_from), final(stack)@, done),
        trace_follows(final(came_from), trace, done),
        neighbors@.no_duplicates() ==> final(stack)@ == old(stack)@ + neighbors@.filter(unreached_in(old(came_from))),
        forall|p: Position| maze.in_bounds(p) && #[trigger] old(came_from).recorded(p) ==> final(came_from).at(p) == old(came_from).at(p),
        forall|p: Position|
            maze.in_bounds(p) && #[trigger] final(came_from).recorded(p) && !old(came_from).recorded(p) ==> final(came_from).at(p)
                == Some(current) && maze.step(current, p),
        final(came_from).reached_count(maze.height as int) >= old(came_from).reached_count(maze.height as int),
{
    let ghost w = maze.width as int;
    let ghost h = maze.height as int;
    let ghost mut depth = depth;
    let ghost t0 = *came_from;
    let ghost s_start = stack@;
    let mut k: usize = 0;
    while k < neighbors.len()
        invariant
            maze.well_shaped(),
            w == maze.width,
            h == maze.height,
            maze.in_bounds(current),
            came_from.recorded(current),
            forall|i: int| 0 <= i < neighbors@.len() ==> maze.step(current, #[trigger] neighbors@[i]),
            forall|u: Position| maze.step(current, u) ==> neighbors@.contains(u),
            0 <= k <= neighbors@.len(),
            forall|i: int| 0 <= i < k ==> came_from.recorded(#[trigger] neighbors@[i]),
            dfs_state(maze, came_from, depth, stack@, explored, Some(current)),
            explored >= 1,
            came_from.reached_count(h) >= t0.reached_count(h),
            search_split(maze, came_from, stack@, done),
            trace_follows(came_from, trace, done),
            done.contains(current),
            neighbors@.no_duplicates() ==> stack@ == s_start + neighbors@.subrange(0, k as int).filter(unreached_in(&t0)),
            neighbors@.no_duplicates() ==> forall|i: int|
                k <= i < neighbors@.len() ==> came_from.recorded(#[trigger] neighbors@[i]) == t0.recorded(neighbors@[i]),
            forall|p: Position| maze.in_bounds(p) && #[trigger] t0.recorded(p) ==> came_from.at(p) == t0.at(p),
            forall|p: Position|
                maze.in_bounds(p) && #[trigger] came_from.recorded(p) && !t0.recorded(p) ==> came_from.at(p) == Some(current)
                    && maze.step(current, p),
        decreases neighbors@.len() - k,
    {
        let neighbor = neighbors[k];
        proof {
            lemma_step_in_bounds(maze, current, neighbor);
            let next = neighbors@.subrange(0, k + 1);
            assert(next.drop_last() =~= neighbors@.subrange(0, k as int));
            assert(next.last() == neighbor);
            reveal(Seq::filter);
        }
        let ghost s_before = stack@;
        if came_from.get(neighbor, Ghost(w), Ghost(h)).is_none() {
            let ghost sb = stack@;
            let ghost tb = *came_from;
            let ghost db = depth;
            stack.push(neighbor);
            came_from.set(neighbor, current, Ghost(w), Ghost(h));
            proof {
                depth = depth.insert(neighbor, depth[current] + 1);
                lemma_split_discovered(maze, &tb, came_from, sb, done, trace, current, neighbor);
                assert forall|p: Position| maze.in_bounds(p) && #[trigger] t0.recorded(p) implies came_from.at(p) == t0.at(p) by {
                    assert(tb.at(p) == t0.at(p));
                }
                assert forall|p: Position| maze.in_bounds(p) && #[trigger] came_from.recorded(p) && !t0.recorded(p) implies came_from.at(
                    p,
                ) == Some(current) && maze.step(current, p) by {
                    if p != neighbor {
                        assert(came_from.at(p) == tb.at(p));
                        assert(tb.recorded(p));
                    }
                }
                if neighbors@.no_duplicates() {
                    assert forall|i: int| k + 1 <= i < neighbors@.len() implies came_from.recorded(#[trigger] neighbors@[i])
                        == t0.recorded(neighbors@[i]) by {
                        lemma_step_in_bounds(maze, current, neighbors@[i]);
                        assert(neighbors@[i] != neighbors@[k as int]);
                        assert(came_from.at(neighbors@[i]) == tb.at(neighbors@[i]));
                    }
                }
                lemma_dfs_discovered(maze, &tb, came_from, db, depth, sb, stack@, current, neighbor, explored);
                assert forall|i: int| 0 <= i < k + 1 implies came_from.recorded(#[trigger] neighbors@[i]) by {
                    if i < k {
                        lemma_step_in_bounds(maze, current, neighbors@[i]);
                        assert(tb.recorded(neighbors@[i]));
                    }
                }
            }
        }
        k = k + 1;
    }
    proof {
        assert forall|u: Position| #[trigger] maze.step(current, u) implies came_from.recorded(u) by {
            assert(neighbors@.contains(u));
            let i = choose|i: int| 0 <= i < neighbors@.len() && neighbors@[i] == u;
            assert(came_from.recorded(neighbors@[i]));
        }
        assert(all_reached(maze, came_from, current));
        assert(neighbors@.subrange(0, neighbors@.len() as int) =~= neighbors@);
    }
    Ghost(depth)
}

pub proof fn lemma_dfs_discovered(
    m: &Maze,
    tb: &ParentGrid,
    t: &ParentGrid,
    db: Map<Position, int>,
    depth: Map<Position, int>,
    sb: Seq<Position>,
    s: Seq<Position>,
    current: Position,
    neighbor: Position,
    explored: int,
)
    requires
        m.well_shaped(),
        explored >= 1,
        dfs_state(m, tb, db, sb, explored, Some(current)),
        m.in_bounds(current),
        tb.recorded(current),
        m.step(current, neighbor),
        m.in_bounds(neighbor),
        !tb.recorded(neighbor),
        t.shaped(m.width as int, m.height as int),
        t.at(neighbor) == Some(current),
        forall|p: Position| p.0 < m.width && p.1 < m.height && p != neighbor ==> #[trigger] t.at(p) == tb.at(p),
        t.reached_count(m.height as int) == tb.reached_count(m.height as int) + 1,
        s == sb.push(neighbor),
        depth == db.insert(neighbor, db[current] + 1),
    ensures
        dfs_state(m, t, depth, s, explored, Some(current)),
        t.recorded(current),
{
    let start = Maze::start();
    let goal = m.exit();
    assert(neighbor != current);
    assert(neighbor != start);
    assert(s[s.len() - 1] == neighbor);
    lemma_tree_extended(m, tb, t, db, depth, start, current, neighbor);
    assert forall|i: int| 0 <= i < s.len() implies m.in_bounds(#[trigger] s[i]) && t.recorded(s[i]) by {
        if i < sb.len() {
            assert(s[i] == sb[i]);
        }
    }
    assert forall|v: Position|
        m.in_bounds(v) && #[trigger] t.recorded(v) implies s.contains(v) || all_reached(m, t, v) || Some(current) == Some(v) by {
        if v == neighbor {
            assert(s[s.len() - 1] == v);
        } else if sb.contains(v) {
            let i = choose|i: int| 0 <= i < sb.len() && sb[i] == v;
            assert(s[i] == v);
        } else if v != current {
            assert(all_reached(m, tb, v));
            assert forall|u: Position| #[trigger] m.step(v, u) implies t.recorded(u) by {
                lemma_step_in_bounds(m, v, u);
                assert(tb.recorded(u));
            }
        }
    }
    if m.in_bounds(goal) && t.recorded(goal) {
        if goal == neighbor {
            assert(s[s.len() - 1] == goal);
        } else {
            let i = choose|i: int| 0 <= i < sb.len() && sb[i] == goal;
            assert(s[i] == goal);
        }
    }
    if s.contains(start) {
        let i = choose|i: int| 0 <= i < s.len() && s[i] == start;
        if i < sb.len() {
            assert(sb[i] == start);
        }
    }
}

/// A search whose stack ran empty without meeting the exit proves that the
/// exit cannot be reached.
pub proof fn lemma_dfs_exhausted(m: &Maze, t: &ParentGrid, depth: Map<Position, int>, explored: int)
    requires
        m.well_shaped(),
        dfs_state(m, t, depth, Seq::empty(), explored, None),
    ensures
        !m.reachable(Maze::start(), m.exit()),
        explored >= 1,
{
    let start = Maze::start();
    assert forall|v: Position, u: Position| m.in_bounds(v) && t.recorded(v) && #[trigger] m.step(v, u) implies t.recorded(u) by {
        assert(!Seq::<Position>::empty().contains(v));
        assert(all_reached(m, t, v));
    }
    if m.reachable(start, m.exit()) {
        lemma_closed_tree_holds_reachable(m, t, depth, start, m.exit());
        assert(Seq::<Position>::empty().contains(m.exit()));
    }
    if explored == 0 {
        assert(Seq::<Position>::empty() != seq![start]) by {
            assert(seq![start].len() == 1);
        }
    }
}

} // verus!

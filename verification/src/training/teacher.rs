use vstd::prelude::*;

use crate::clock::duration_as_nanos;
use crate::maze::Maze;
use crate::solver::astar;
use crate::solver::search::{solver_output_ok, Position, SearchStep, SolverOutput};
use crate::solver::{bfs, dfs, random};
use crate::text::text_of;

verus! {

/// A solver run that solved the maze, as a candidate teacher.
pub struct TeacherResult {
    pub algorithm: String,
    pub path: Vec<Position>,
    pub trace: Vec<SearchStep>,
    pub nodes_explored: usize,
    pub duration_nanos: u128,
}

/// `a` is the better teacher: it explored fewer cells, or as many in less time.
pub open spec fn better(a: TeacherResult, b: TeacherResult) -> bool {
    a.nodes_explored < b.nodes_explored || (a.nodes_explored == b.nodes_explored && a.duration_nanos
        < b.duration_nanos)
}

/// `t`, at index `i`, is the first of the best candidates.
pub open spec fn first_best(candidates: Seq<TeacherResult>, i: int, t: TeacherResult) -> bool {
    &&& 0 <= i < candidates.len()
    &&& t == candidates[i]
    &&& forall|j: int| 0 <= j < candidates.len() ==> !better(#[trigger] candidates[j], t)
    &&& forall|j: int| 0 <= j < i ==> better(t, #[trigger] candidates[j])
}

/// The run as a teacher, when it solved the maze.
pub fn valid_teacher_result(output: SolverOutput) -> (result: Option<TeacherResult>)
    ensures
        result is Some <==> (output.stats.solved && output.path is Some),
        result matches Some(t) ==> {
            &&& t.algorithm@ == output.stats.algorithm@
            &&& t.path == output.path->0
            &&& t.trace == output.trace
            &&& t.nodes_explored == output.stats.nodes_explored
        },
{
    if !output.stats.solved {
        return None;
    }
    let path = match output.path {
        Some(path) => path,
        None => {
            return None;
        },
    };
    Some(
        TeacherResult {
            algorithm: text_of(output.stats.algorithm),
            path,
            trace: output.trace,
            nodes_explored: output.stats.nodes_explored,
            duration_nanos: duration_as_nanos(&output.stats.duration),
        },
    )
}

/// The first candidate that explored the fewest cells, the time breaking
/// ties; `None` when there is none.
pub fn best_teacher(candidates: Vec<TeacherResult>) -> (result: Option<TeacherResult>)
    ensures
        result is None <==> candidates@.len() == 0,
        result is Some ==> exists|i: int| first_best(candidates@, i, result->0),
{
    if candidates.len() == 0 {
        return None;
    }
    let ghost all = candidates@;
    let mut best: usize = 0;
    let mut k: usize = 1;
    while k < candidates.len()
        invariant
            candidates@ == all,
            1 <= k <= all.len(),
            best < k,
            forall|j: int| 0 <= j < k ==> !better(#[trigger] all[j], all[best as int]),
            forall|j: int| 0 <= j < best ==> better(all[best as int], #[trigger] all[j]),
        decreases all.len() - k,
    {
        let candidate = &candidates[k];
        let current = &candidates[best];
        if candidate.nodes_explored < current.nodes_explored || (candidate.nodes_explored == current.nodes_explored
            && candidate.duration_nanos < current.duration_nanos) {
            best = k;
        }
        k = k + 1;
    }
    let mut pool = candidates;
    let chosen = pool.remove(best);
    let result = Some(chosen);
    proof {
        assert(first_best(all, best as int, chosen));
        assert(result->0 == chosen);
        assert(first_best(all, best as int, result->0));
    }
    result
}

/// The run solved the maze: it says so and has a path.
pub open spec fn solved_run(out: SolverOutput) -> bool {
    out.stats.solved && out.path is Some
}

pub open spec fn is_solved_run() -> spec_fn(SolverOutput) -> bool {
    |out: SolverOutput| solved_run(out)
}

/// `t` is the teacher that `valid_teacher_result` takes from `out`.
pub open spec fn copies_run(t: TeacherResult, out: SolverOutput) -> bool {
    &&& t.algorithm@ == out.stats.algorithm@
    &&& t.path == out.path->0
    &&& t.trace == out.trace
    &&& t.nodes_explored == out.stats.nodes_explored
}

/// The candidates are the teachers of the runs that solved the maze, in the
/// order of the runs.
pub open spec fn candidates_of(candidates: Seq<TeacherResult>, runs: Seq<SolverOutput>) -> bool {
    let solved = runs.filter(is_solved_run());
    &&& candidates.len() == solved.len()
    &&& forall|k: int| 0 <= k < candidates.len() ==> copies_run(#[trigger] candidates[k], solved[k])
}

/// The teacher of the runs: of those that solved the maze, the first that
/// explored the fewest cells, the time breaking ties; `None` when none
/// solved it.
pub fn teacher_from_runs(runs: Vec<SolverOutput>) -> (result: Option<TeacherResult>)
    ensures
        result is None <==> runs@.filter(is_solved_run()).len() == 0,
        result matches Some(t) ==> exists|candidates: Seq<TeacherResult>, i: int|
            candidates_of(candidates, runs@) && #[trigger] first_best(candidates, i, t),
{
    broadcast use vstd::seq_lib::group_filter_ensures;

    let ghost all = runs@;
    let total: usize = runs.len();
    assert(all.len() == total);
    let mut rest = runs;
    let mut candidates: Vec<TeacherResult> = Vec::new();
    let mut k: usize = 0;
    proof {
        assert(all.take(0) =~= Seq::<SolverOutput>::empty());
        assert(all.take(0).filter(is_solved_run()) =~= Seq::<SolverOutput>::empty()) by {
            reveal(Seq::filter);
        }
        assert(rest@ =~= all.skip(0));
    }
    while rest.len() > 0
        invariant
            k <= all.len(),
            all.len() <= usize::MAX,
            rest@ == all.skip(k as int),
            candidates_of(candidates@, all.take(k as int)),
        decreases rest@.len(),
    {
        let ghost before = candidates@;
        let out = rest.remove(0);
        proof {
            assert(out == all[k as int]);
            assert(all.take(k + 1) =~= all.take(k as int).push(all[k as int]));
            all.take(k as int).lemma_filter_push(all[k as int], is_solved_run());
            assert(rest@ =~= all.skip(k + 1));
        }
        match valid_teacher_result(out) {
            Some(teacher) => {
                candidates.push(teacher);
                proof {
                    let solved = all.take(k + 1).filter(is_solved_run());
                    assert forall|j: int| 0 <= j < candidates@.len() implies copies_run(#[trigger] candidates@[j], solved[j]) by {
                        if j < before.len() {
                            assert(candidates@[j] == before[j]);
                        }
                    }
                }
            },
            None => {},
        }
        k = k + 1;
    }
    proof {
        assert(all.take(k as int) =~= all);
    }
    let ghost pool = candidates@;
    let result = best_teacher(candidates);
    proof {
        if result is Some {
            let i = choose|i: int| first_best(pool, i, result->0);
            assert(candidates_of(pool, all) && first_best(pool, i, result->0));
        }
    }
    result
}

/// Runs the four classical solvers on the maze and returns the run that
/// explored the fewest cells (the time breaking ties, the earlier of breadth
/// first, depth first, random and A* winning a full tie), or `None` when no
/// solver solved it.
pub fn select_teacher(maze: &Maze) -> (result: Option<TeacherResult>)
    requires
        maze.well_shaped(),
        maze.cells_fit(),
    ensures
        result is Some <==> maze.reachable(Maze::start(), maze.exit()),
        result matches Some(t) ==> teacher_ok(maze, t),
        result matches Some(t) ==> exists|runs: Seq<SolverOutput>, candidates: Seq<TeacherResult>, i: int|
            #[trigger] four_runs(maze, runs) && candidates_of(candidates, runs) && #[trigger] first_best(candidates, i, t),
{
    let bfs_output = bfs::solve(maze);
    let dfs_output = dfs::solve(maze);
    let random_output = random::solve(maze);
    let astar_output = astar::solve(maze);
    let ghost outs = seq![bfs_output, dfs_output, random_output, astar_output];
    let mut runs: Vec<SolverOutput> = Vec::new();
    runs.push(bfs_output);
    runs.push(dfs_output);
    runs.push(random_output);
    runs.push(astar_output);
    proof {
        assert(runs@ =~= outs);
        assert(four_runs(maze, outs));
        lemma_solved_runs(maze, outs);
    }
    let result = teacher_from_runs(runs);
    proof {
        if result is Some {
            let t = result->0;
            let (candidates, i) = choose|candidates: Seq<TeacherResult>, i: int|
                candidates_of(candidates, outs) && #[trigger] first_best(candidates, i, t);
            let solved = outs.filter(is_solved_run());
            assert(copies_run(candidates[i], solved[i]));
            assert(solved.contains(solved[i]));
            assert(teacher_ok(maze, t));
            assert(four_runs(maze, outs) && candidates_of(candidates, outs) && first_best(candidates, i, t));
        }
    }
    result
}

/// The runs of breadth-first, depth-first, random and A* search on the
/// maze, in that order, each meeting its solver's contract.
pub open spec fn four_runs(m: &Maze, runs: Seq<SolverOutput>) -> bool {
    &&& runs.len() == 4
    &&& solver_output_ok(m, runs[0], "BFS"@)
    &&& solver_output_ok(m, runs[1], "DFS"@)
    &&& solver_output_ok(m, runs[2], "Random"@)
    &&& solver_output_ok(m, runs[3], "A*"@)
}

/// What every teacher taken from a classical solver satisfies.
pub open spec fn teacher_ok(m: &Maze, t: TeacherResult) -> bool {
    &&& m.is_walk_between(t.path@, Maze::start(), m.exit())
    &&& t.path@.no_duplicates()
    &&& t.nodes_explored >= 1
    &&& t.trace@.len() == t.nodes_explored - 1
    &&& (t.algorithm@ == "BFS"@ || t.algorithm@ == "DFS"@ || t.algorithm@ == "Random"@ || t.algorithm@ == "A*"@)
}

/// The four runs solve the maze exactly when its exit is reachable, and
/// each run that solves it gives a teacher of the kind `teacher_ok` says.
proof fn lemma_solved_runs(m: &Maze, runs: Seq<SolverOutput>)
    requires
        four_runs(m, runs),
    ensures
        runs.filter(is_solved_run()).len() > 0 <==> m.reachable(Maze::start(), m.exit()),
        forall|k: int|
            0 <= k < runs.filter(is_solved_run()).len() ==> {
                let out = #[trigger] runs.filter(is_solved_run())[k];
                &&& solved_run(out)
                &&& m.is_walk_between(out.path->0@, Maze::start(), m.exit())
                &&& out.path->0@.no_duplicates()
                &&& out.stats.nodes_explored >= 1
                &&& out.trace@.len() == out.stats.nodes_explored - 1
                &&& (out.stats.algorithm@ == "BFS"@ || out.stats.algorithm@ == "DFS"@ || out.stats.algorithm@
                    == "Random"@ || out.stats.algorithm@ == "A*"@)
            },
{
    broadcast use vstd::seq_lib::group_filter_ensures;

    let solved = runs.filter(is_solved_run());
    assert forall|k: int| 0 <= k < solved.len() implies {
        let out = #[trigger] solved[k];
        &&& solved_run(out)
        &&& m.is_walk_between(out.path->0@, Maze::start(), m.exit())
        &&& out.path->0@.no_duplicates()
        &&& out.stats.nodes_explored >= 1
        &&& out.trace@.len() == out.stats.nodes_explored - 1
        &&& (out.stats.algorithm@ == "BFS"@ || out.stats.algorithm@ == "DFS"@ || out.stats.algorithm@ == "Random"@
            || out.stats.algorithm@ == "A*"@)
    } by {
        assert(is_solved_run()(solved[k]));
        lemma_filtered_from(runs, is_solved_run(), solved[k]);
        let j = choose|j: int| 0 <= j < runs.len() && runs[j] == solved[k];
        assert(j == 0 || j == 1 || j == 2 || j == 3);
    }
    if m.reachable(Maze::start(), m.exit()) {
        assert(is_solved_run()(runs[0]));
        assert(solved.contains(runs[0]));
    } else if solved.len() > 0 {
        assert(solved.contains(solved[0]));
        assert(is_solved_run()(solved[0]));
        lemma_filtered_from(runs, is_solved_run(), solved[0]);
    }
}

/// What a filter keeps comes from the sequence it filters.
proof fn lemma_filtered_from(s: Seq<SolverOutput>, pred: spec_fn(SolverOutput) -> bool, x: SolverOutput)
    requires
        s.filter(pred).contains(x),
    ensures
        s.contains(x),
    decreases s.len(),
{
    if s.len() == 0 {
        assert(s.filter(pred) =~= Seq::<SolverOutput>::empty()) by {
            reveal(Seq::filter);
        }
    } else {
        let front = s.drop_last();
        assert(front.push(s.last()) =~= s);
        front.lemma_filter_push(s.last(), pred);
        if x != s.last() {
            if pred(s.last()) {
                let j = choose|j: int| 0 <= j < s.filter(pred).len() && s.filter(pred)[j] == x;
                assert(front.filter(pred)[j] == x);
            }
            assert(front.filter(pred).contains(x));
            lemma_filtered_from(front, pred, x);
            let j = choose|j: int| 0 <= j < front.len() && front[j] == x;
            assert(s[j] == x);
        } else {
            assert(s[s.len() - 1] == x);
        }
    }
}

} // verus!

use vstd::prelude::*;

use crate::command::{command_kind, limit_outcome, LimitArgument};
use crate::config::{size_class, Difficulty};
use crate::monitor::{
    keeps_watching, limit_option_text, mode_command_text, monitor_decision, progress_times, MonitorAction, ProcessCheck,
    RequestedLimit,
    TrainingMode, UPDATE_INTERVAL_SECONDS,
};
use crate::text::{lemma_parse_decimal, parsed_unsigned};
use crate::maze::{moved, Maze};
use crate::solver::search::{direction_of, Direction, Position};
use crate::solver::search::{shortest_solution, solver_output_ok, SolverOutput};
use crate::training::session::{
    failure_step, first_missing, limit_reached, maze_session_budget, oldest_slot, slot_choice, success_step, SlotState,
    TrainingLimit, TrainingSession, MAX_CONSECUTIVE_FAILURES,
};
use crate::spanning::{
    component_tree_links, lemma_perfect_spanning, lemma_simple_walks_agree, lemma_spanning_component,
    reachable_cells_form_tree,
};

verus! {

/// A side length drawn for a difficulty is named by that difficulty: every
/// size in the range of `d` is classified as `d`.
pub proof fn law_size_names_its_difficulty(d: Difficulty, size: int)
    requires
        d.min_size() <= size <= d.max_size(),
    ensures
        size_class(size) == d,
{
}

/// The direction between a position and the position one move away in
/// direction `d` is `d`.
pub proof fn law_direction_of_move(p: Position, d: Direction)
    requires
        d == Direction::North ==> p.1 > 0,
        d == Direction::West ==> p.0 > 0,
        d == Direction::East ==> p.0 < usize::MAX,
        d == Direction::South ==> p.1 < usize::MAX,
    ensures
        direction_of(p, moved(p, d)) == Some(d),
{
}

/// In a perfect maze the exit can be reached from the entrance, so every
/// solver finds a path in it.
pub proof fn law_perfect_maze_is_solvable(m: &Maze)
    requires
        m.is_perfect(),
    ensures
        m.reachable(Maze::start(), m.exit()),
{
    assert(m.in_bounds(m.exit()));
}

/// A perfect maze has one solution: two walks without repeated cells from
/// the entrance to the exit are the same walk.
pub proof fn law_unique_solution(m: &Maze, p: Seq<Position>, q: Seq<Position>)
    requires
        m.is_perfect(),
        m.is_walk_between(p, Maze::start(), m.exit()),
        m.is_walk_between(q, Maze::start(), m.exit()),
        p.no_duplicates(),
        q.no_duplicates(),
    ensures
        p == q,
{
    law_perfect_maze_is_a_tree(m);
    law_unique_solution_in_tree(m, p, q);
}

/// The cells of a perfect maze form a tree.
pub proof fn law_perfect_maze_is_a_tree(m: &Maze)
    requires
        m.is_perfect(),
    ensures
        reachable_cells_form_tree(m),
{
    let (par, depth) = lemma_perfect_spanning(m);
    lemma_spanning_component(m, par, depth);
    assert(component_tree_links(m, par, depth));
}

/// Whenever the cells reachable from the entrance form a tree, there is
/// one solution: two walks without repeated cells from the entrance to the
/// exit are the same walk.
pub proof fn law_unique_solution_in_tree(m: &Maze, p: Seq<Position>, q: Seq<Position>)
    requires
        reachable_cells_form_tree(m),
        m.is_walk_between(p, Maze::start(), m.exit()),
        m.is_walk_between(q, Maze::start(), m.exit()),
        p.no_duplicates(),
        q.no_duplicates(),
    ensures
        p == q,
{
    let (par, depth) = choose|par: Map<Position, Position>, depth: Map<Position, nat>|
        #[trigger] component_tree_links(m, par, depth);
    lemma_simple_walks_agree(m, par, depth, p, q, m.exit());
}

/// Whenever the cells reachable from the entrance form a tree, every solver
/// that finds a path finds the same one, whatever order it explores in.
pub proof fn law_solvers_agree_in_tree(
    m: &Maze,
    first: SolverOutput,
    first_name: Seq<char>,
    second: SolverOutput,
    second_name: Seq<char>,
)
    requires
        reachable_cells_form_tree(m),
        solver_output_ok(m, first, first_name),
        solver_output_ok(m, second, second_name),
        first.path is Some,
        second.path is Some,
    ensures
        first.path->0@ == second.path->0@,
{
    law_unique_solution_in_tree(m, first.path->0@, second.path->0@);
}

/// On a perfect maze every solver that finds a path finds the same one.
pub proof fn law_solvers_agree(
    m: &Maze,
    first: SolverOutput,
    first_name: Seq<char>,
    second: SolverOutput,
    second_name: Seq<char>,
)
    requires
        m.is_perfect(),
        solver_output_ok(m, first, first_name),
        solver_output_ok(m, second, second_name),
        first.path is Some,
        second.path is Some,
    ensures
        first.path->0@ == second.path->0@,
{
    law_unique_solution(m, first.path->0@, second.path->0@);
}

/// When every slot holds a readable checkpoint, the next checkpoint replaces
/// the first one that completed the fewest mazes: only the newest
/// checkpoints are kept.
pub proof fn law_rotation_replaces_oldest(states: Seq<SlotState>)
    requires
        states.len() >= 1,
        forall|i: int| 0 <= i < states.len() ==> #[trigger] states[i] is Completed,
    ensures
        1 <= slot_choice(states) <= states.len(),
        forall|j: int|
            0 <= j < states.len() ==> (#[trigger] states[j])->Completed_0 >= states[slot_choice(states) - 1]->Completed_0,
        forall|j: int|
            0 <= j < slot_choice(states) - 1 ==> (#[trigger] states[j])->Completed_0
                > states[slot_choice(states) - 1]->Completed_0,
{
    lemma_no_missing(states, states.len() as int);
    lemma_oldest(states, states.len() as int);
}

proof fn lemma_no_missing(states: Seq<SlotState>, n: int)
    requires
        0 <= n <= states.len(),
        forall|i: int| 0 <= i < states.len() ==> #[trigger] states[i] is Completed,
    ensures
        first_missing(states, n) is None,
    decreases n,
{
    if n > 0 {
        lemma_no_missing(states, n - 1);
    }
}

proof fn lemma_oldest(states: Seq<SlotState>, n: int)
    requires
        1 <= n <= states.len(),
        forall|i: int| 0 <= i < states.len() ==> #[trigger] states[i] is Completed,
    ensures
        !oldest_slot(states, n).2,
        0 <= oldest_slot(states, n).0 < n,
        oldest_slot(states, n).1 == states[oldest_slot(states, n).0]->Completed_0,
        forall|j: int| 0 <= j < n ==> (#[trigger] states[j])->Completed_0 >= oldest_slot(states, n).1,
        forall|j: int| 0 <= j < oldest_slot(states, n).0 ==> (#[trigger] states[j])->Completed_0 > oldest_slot(states, n).1,
    decreases n,
{
    if n == 1 {
        assert(states[0] is Completed);
        assert(oldest_slot(states, 0) == (0int, u128::MAX, false));
    } else {
        lemma_oldest(states, n - 1);
        assert(states[n - 1] is Completed);
    }
}


/// A new session of `mazes` mazes may process at most `(mazes + 1)` times
/// the failures allowed in a row.
pub proof fn law_maze_session_budget_starts(previously_completed: u128, mazes: u64)
    ensures
        maze_session_budget(TrainingSession::new_spec(previously_completed, TrainingLimit::Mazes(mazes)))
            == (mazes + 1) * MAX_CONSECUTIVE_FAILURES,
{
}

/// Every maze that a session with a maze limit goes on to process, whether
/// it succeeds or fails, lowers the session's budget, which never falls
/// below zero: so such a session ends after at most its first budget of
/// mazes.
pub proof fn law_maze_session_step_lowers_budget(s: TrainingSession, next: TrainingSession)
    requires
        s.limit is Mazes,
        !limit_reached(s.limit, s.session_mazes_completed as int, 0),
        s.consecutive_failures < MAX_CONSECUTIVE_FAILURES,
        success_step(s, next) || failure_step(s, next),
    ensures
        0 <= maze_session_budget(next) < maze_session_budget(s),
{
}


/// Theseus reads back the training that Hermes asks for: the command,
/// option and value that `training_command` writes after `--` name the same
/// mode and the same limit to `parse_command`.
pub proof fn law_training_command_reads_back(arguments: Seq<String>, mode: TrainingMode, limit: RequestedLimit)
    requires
        limit matches RequestedLimit::Mazes(mazes) ==> mazes > 0,
        arguments.len() == 3,
        arguments[0]@ == mode_command_text(mode),
        arguments[1]@ == limit_option_text(limit).0,
        arguments[2]@ == limit_option_text(limit).1,
    ensures
        command_kind(arguments[0]@) == (if mode == TrainingMode::New { 1int } else { 2int }),
        match limit {
            RequestedLimit::Mazes(mazes) => limit_outcome(arguments.subrange(1, 3)) matches Ok(LimitArgument::Mazes(n))
                && n == mazes,
            RequestedLimit::Hours(hours) => limit_outcome(arguments.subrange(1, 3)) matches Ok(LimitArgument::Hours(text))
                && text@ == hours@,
        },
{
    reveal_strlit("train-new");
    reveal_strlit("train-resume");
    reveal_strlit("training-stats");
    reveal_strlit("solve");
    reveal_strlit("help");
    reveal_strlit("--help");
    reveal_strlit("-h");
    reveal_strlit("--mazes");
    reveal_strlit("--hours");
    let rest = arguments.subrange(1, 3);
    assert(rest[0] == arguments[1]);
    assert(rest[1] == arguments[2]);
    assert("train-new"@.len() == 9);
    assert("train-resume"@.len() == 12);
    assert("train-new"@ != "train-resume"@);
    if mode == TrainingMode::New {
        assert(arguments[0]@ == "train-new"@);
        assert(command_kind(arguments[0]@) == 1);
    } else {
        assert(arguments[0]@ == "train-resume"@);
        assert(command_kind(arguments[0]@) == 2);
    }
    match limit {
        RequestedLimit::Mazes(mazes) => {
            lemma_parse_decimal(mazes as nat, u64::MAX as nat);
            assert(rest[0]@ == "--mazes"@);
            assert(parsed_unsigned(rest[1]@, u64::MAX as nat) == Some(mazes as nat));
            assert(limit_outcome(rest) == Ok::<LimitArgument, Seq<char>>(LimitArgument::Mazes(mazes)));
        },
        RequestedLimit::Hours(hours) => {
            assert("--hours"@[2] != "--mazes"@[2]);
            assert(rest[0]@ == "--hours"@);
        },
    }
}


/// On any maze, two solvers that find shortest paths (breadth-first search
/// and A*) find one exactly when the exit is reachable, and paths of the
/// same length. Beyond perfect mazes the paths themselves may differ.
pub proof fn law_shortest_solvers_agree_on_length(
    m: &Maze,
    first: SolverOutput,
    first_name: Seq<char>,
    second: SolverOutput,
    second_name: Seq<char>,
)
    requires
        solver_output_ok(m, first, first_name),
        solver_output_ok(m, second, second_name),
        shortest_solution(m, first),
        shortest_solution(m, second),
    ensures
        first.path is Some <==> second.path is Some,
        first.path is Some ==> first.path->0@.len() == second.path->0@.len(),
{
}


/// A watch goes on after a look exactly when the look found the training
/// still running: it ends at the first look that found it ended, found
/// another or no training, or could not ask.
pub proof fn law_watch_ends_when_training_stops(check: ProcessCheck, seconds_since_update: int)
    ensures
        keeps_watching(monitor_decision(check, seconds_since_update)) <==> check is Running,
{
}

/// Over a whole watch, progress reports come at least ten minutes apart,
/// the first at least ten minutes after the start.
pub proof fn law_progress_reports_spaced(looks: Seq<(ProcessCheck, int)>, start: int)
    ensures
        forall|k: int| 0 <= k < progress_times(looks, start).len() ==> #[trigger] progress_times(looks, start)[k]
            >= start + UPDATE_INTERVAL_SECONDS,
        forall|k: int|
            0 < k < progress_times(looks, start).len() ==> #[trigger] progress_times(looks, start)[k]
                - progress_times(looks, start)[k - 1] >= UPDATE_INTERVAL_SECONDS,
    decreases looks.len(),
{
    if looks.len() > 0 {
        let (check, time) = looks[0];
        let rest = looks.drop_first();
        let r = progress_times(looks, start);
        match monitor_decision(check, time - start) {
            MonitorAction::ReportProgress => {
                law_progress_reports_spaced(rest, time);
                let r2 = progress_times(rest, time);
                assert(r == seq![time] + r2);
                assert(time - start >= UPDATE_INTERVAL_SECONDS);
                assert forall|k: int| 0 <= k < r.len() implies #[trigger] r[k] >= start + UPDATE_INTERVAL_SECONDS by {
                    if k > 0 {
                        assert(r[k] == r2[k - 1]);
                    }
                }
                assert forall|k: int| 0 < k < r.len() implies #[trigger] r[k] - r[k - 1] >= UPDATE_INTERVAL_SECONDS by {
                    assert(r[k] == r2[k - 1]);
                    if k > 1 {
                        assert(r[k - 1] == r2[k - 2]);
                    }
                }
            },
            MonitorAction::Wait => {
                law_progress_reports_spaced(rest, start);
                assert(r == progress_times(rest, start));
            },
            _ => {
                assert(r.len() == 0);
            },
        }
    }
}


/// The checkpoints of a session are numbered in turn after the mazes
/// completed before it: a session that starts after `previously_completed`
/// mazes, and saves each maze's checkpoint under the next maze number, has
/// completed `previously_completed` plus its own mazes in all.
pub proof fn law_checkpoints_numbered_in_turn(previously_completed: u128, s: TrainingSession, next: TrainingSession)
    requires
        s.total_mazes_completed == previously_completed + s.session_mazes_completed,
        (success_step(s, next) && next.total_mazes_completed == s.total_mazes_completed + 1) || failure_step(s, next),
    ensures
        next.total_mazes_completed == previously_completed + next.session_mazes_completed,
{
}

} // verus!

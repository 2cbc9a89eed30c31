use vstd::prelude::*;

use std::time::Instant;

use crate::clock::{duration_as_nanos, duration_as_secs, elapsed_since, since_unix_epoch, system_time_now};
use crate::text::{decimal, push_decimal, text_of};

verus! {

/// The number of checkpoint files kept.
pub const CHECKPOINT_SLOTS: usize = 5;

/// After this many failed mazes in a row a session stops.
pub const MAX_CONSECUTIVE_FAILURES: usize = 10;

/// When a training session ends: after a number of mazes, or after a time
/// given in nanoseconds.
#[derive(Debug, Clone, Copy, PartialEq, Eq, Structural)]
pub enum TrainingLimit {
    Mazes(u64),
    Time(u128),
}

/// Why a training session ended.
#[derive(Debug, Clone, Copy, PartialEq, Eq, Structural)]
pub enum StopReason {
    MazeLimit,
    TimeLimit,
    TrainingFailure,
}

/// The limit is reached: the session completed its mazes, or its time ran out.
pub open spec fn limit_reached(limit: TrainingLimit, session_mazes_completed: int, elapsed_nanos: int) -> bool {
    match limit {
        TrainingLimit::Mazes(target) => session_mazes_completed >= target,
        TrainingLimit::Time(nanos) => elapsed_nanos >= nanos,
    }
}

/// Whether the limit is reached after `elapsed_nanos` nanoseconds.
pub fn training_limit_reached(limit: TrainingLimit, session_mazes_completed: u64, elapsed_nanos: u128) -> (reached:
    bool)
    ensures
        reached == limit_reached(limit, session_mazes_completed as int, elapsed_nanos as int),
{
    match limit {
        TrainingLimit::Mazes(target) => session_mazes_completed >= target,
        TrainingLimit::Time(nanos) => elapsed_nanos >= nanos,
    }
}

/// Whether the limit is reached now, for a session that started at `started`.
/// What the clock reads is not stated.
pub fn training_limit_reached_since(limit: TrainingLimit, session_mazes_completed: u64, started: &Instant) -> (reached:
    bool)
    ensures
        limit is Mazes ==> reached == limit_reached(limit, session_mazes_completed as int, 0),
{
    let elapsed = elapsed_since(started);
    training_limit_reached(limit, session_mazes_completed, duration_as_nanos(&elapsed))
}

/// The progress of a training session.
#[derive(Debug, Clone, Copy)]
pub struct TrainingSession {
    pub limit: TrainingLimit,
    pub session_mazes_completed: u64,
    pub total_mazes_completed: u128,
    pub consecutive_failures: usize,
}

impl TrainingSession {
    /// A session that continues after `previously_completed` mazes.
    pub fn new(previously_completed: u128, limit: TrainingLimit) -> (session: Self)
        ensures
            session.limit == limit,
            session.session_mazes_completed == 0,
            session.total_mazes_completed == previously_completed,
            session.consecutive_failures == 0,
    {
        TrainingSession { limit, session_mazes_completed: 0, total_mazes_completed: previously_completed, consecutive_failures: 0 }
    }

    /// The number of the next maze to train on.
    pub fn next_maze_number(&self) -> (number: u128)
        requires
            self.total_mazes_completed < u128::MAX,
        ensures
            number == self.total_mazes_completed + 1,
    {
        self.total_mazes_completed + 1
    }

    /// A maze was trained on and its checkpoint saved: the session counts it,
    /// the total becomes the checkpoint's, and the run of failures ends.
    pub fn record_success(&mut self, total_mazes_completed: u128)
        requires
            old(self).session_mazes_completed < u64::MAX,
        ensures
            final(self).limit == old(self).limit,
            final(self).session_mazes_completed == old(self).session_mazes_completed + 1,
            final(self).total_mazes_completed == total_mazes_completed,
            final(self).consecutive_failures == 0,
    {
        self.session_mazes_completed = self.session_mazes_completed + 1;
        self.total_mazes_completed = total_mazes_completed;
        self.consecutive_failures = 0;
    }

    /// A maze failed: the run of failures grows.
    pub fn record_failure(&mut self)
        requires
            old(self).consecutive_failures < usize::MAX,
        ensures
            *final(self) == (TrainingSession { consecutive_failures: (old(self).consecutive_failures + 1) as usize, ..*old(self) }),
    {
        self.consecutive_failures = self.consecutive_failures + 1;
    }

    /// Too many mazes failed in a row.
    pub fn too_many_failures(&self) -> (stop: bool)
        ensures
            stop == (self.consecutive_failures >= MAX_CONSECUTIVE_FAILURES),
    {
        self.consecutive_failures >= MAX_CONSECUTIVE_FAILURES
    }

    /// Whether the session goes on to another maze after `elapsed_nanos`
    /// nanoseconds: the limit is not reached and the failures did not stop it.
    pub fn continues(&self, elapsed_nanos: u128) -> (go_on: bool)
        ensures
            go_on == (!limit_reached(self.limit, self.session_mazes_completed as int, elapsed_nanos as int)
                && self.consecutive_failures < MAX_CONSECUTIVE_FAILURES),
    {
        !training_limit_reached(self.limit, self.session_mazes_completed, elapsed_nanos) && !self.too_many_failures()
    }

    /// Why the session ended, after `elapsed_nanos` nanoseconds: its limit,
    /// when reached, and otherwise the failures.
    pub fn stop_reason(&self, elapsed_nanos: u128) -> (reason: StopReason)
        ensures
            reason == (match self.limit {
                TrainingLimit::Mazes(target) => if self.session_mazes_completed >= target {
                    StopReason::MazeLimit
                } else {
                    StopReason::TrainingFailure
                },
                TrainingLimit::Time(nanos) => if elapsed_nanos >= nanos {
                    StopReason::TimeLimit
                } else {
                    StopReason::TrainingFailure
                },
            }),
    {
        match self.limit {
            TrainingLimit::Mazes(target) => if self.session_mazes_completed >= target {
                StopReason::MazeLimit
            } else {
                StopReason::TrainingFailure
            },
            TrainingLimit::Time(nanos) => if elapsed_nanos >= nanos {
                StopReason::TimeLimit
            } else {
                StopReason::TrainingFailure
            },
        }
    }
}

/// The work on one training maze.
#[derive(Debug, Clone, Copy, PartialEq, Eq, Structural)]
pub enum MazeTask {
    /// Generate the maze.
    Generate,
    /// Let Theseus solve the maze it has not seen, before it learns from it.
    Evaluate,
    /// Run the classical solvers and choose the teacher.
    SelectTeacher,
    /// Turn the teacher's path into training examples.
    BuildExamples,
    /// Train the model on the examples.
    Learn,
    /// Put together the checkpoint of the maze.
    RecordCheckpoint,
}

/// The place of a task in the work on a maze.
pub open spec fn task_rank(task: MazeTask) -> int {
    match task {
        MazeTask::Generate => 0,
        MazeTask::Evaluate => 1,
        MazeTask::SelectTeacher => 2,
        MazeTask::BuildExamples => 3,
        MazeTask::Learn => 4,
        MazeTask::RecordCheckpoint => 5,
    }
}

/// The first task on a maze.
pub fn first_maze_task() -> (task: MazeTask)
    ensures
        task_rank(task) == 0,
{
    MazeTask::Generate
}

/// The task after `task`, or `None` when the maze is done.
pub fn next_maze_task(task: MazeTask) -> (next: Option<MazeTask>)
    ensures
        next is None <==> task == MazeTask::RecordCheckpoint,
        next matches Some(n) ==> task_rank(n) == task_rank(task) + 1,
{
    match task {
        MazeTask::Generate => Some(MazeTask::Evaluate),
        MazeTask::Evaluate => Some(MazeTask::SelectTeacher),
        MazeTask::SelectTeacher => Some(MazeTask::BuildExamples),
        MazeTask::BuildExamples => Some(MazeTask::Learn),
        MazeTask::Learn => Some(MazeTask::RecordCheckpoint),
        MazeTask::RecordCheckpoint => None,
    }
}

/// Following `next_maze_task` from the first task, each task comes exactly
/// once, in order of rank: Theseus is evaluated on a maze before the model
/// learns from it.
pub proof fn law_evaluation_precedes_learning(task: MazeTask)
    ensures
        0 <= task_rank(task) <= 5,
        forall|other: MazeTask| task_rank(other) == task_rank(task) ==> other == task,
        task_rank(MazeTask::Evaluate) < task_rank(MazeTask::Learn),
{
}

/// `next` is `s` after `record_success`.
pub open spec fn success_step(s: TrainingSession, next: TrainingSession) -> bool {
    &&& next.limit == s.limit
    &&& next.session_mazes_completed == s.session_mazes_completed + 1
    &&& next.consecutive_failures == 0
}

/// `next` is `s` after `record_failure`.
pub open spec fn failure_step(s: TrainingSession, next: TrainingSession) -> bool {
    next == (TrainingSession { consecutive_failures: (s.consecutive_failures + 1) as usize, ..s })
}

/// How many more mazes a session with a maze limit may process: each one
/// that succeeds uses up a run of failures it had left, and each one that
/// fails uses up one failure of the run.
pub open spec fn maze_session_budget(s: TrainingSession) -> int {
    match s.limit {
        TrainingLimit::Mazes(target) => (target - s.session_mazes_completed) * MAX_CONSECUTIVE_FAILURES
            + (MAX_CONSECUTIVE_FAILURES - s.consecutive_failures),
        TrainingLimit::Time(_) => 0,
    }
}

/// The refusal of a training of zero mazes, made before anything is read
/// or changed; `None` for any other count.
pub fn refuse_zero_mazes(mazes: u64) -> (refusal: Option<String>)
    ensures
        refusal is Some <==> mazes == 0,
        refusal matches Some(message) ==> message@ == "Maze count must be greater than zero."@,
{
    if mazes == 0 {
        Some(text_of("Maze count must be greater than zero."))
    } else {
        None
    }
}

/// A new session of `mazes` mazes, refused for zero mazes.
pub fn start_new_training_for_mazes(mazes: u64) -> (result: Result<TrainingSession, String>)
    ensures
        mazes == 0 <==> result is Err,
        result matches Err(message) ==> message@ == "Maze count must be greater than zero."@,
        result matches Ok(session) ==> session == TrainingSession::new_spec(0, TrainingLimit::Mazes(mazes)),
{
    if mazes == 0 {
        return Err(text_of("Maze count must be greater than zero."));
    }
    Ok(TrainingSession::new(0, TrainingLimit::Mazes(mazes)))
}

impl TrainingSession {
    /// The session that `new` returns.
    pub open spec fn new_spec(previously_completed: u128, limit: TrainingLimit) -> TrainingSession {
        TrainingSession { limit, session_mazes_completed: 0, total_mazes_completed: previously_completed, consecutive_failures: 0 }
    }
}

/// A session of `mazes` more mazes after the newest checkpoint, given what
/// reading the checkpoints gave: an error, no checkpoint, or the number of
/// mazes the newest one completed. Zero mazes are refused first.
pub fn resume_training_for_mazes(mazes: u64, newest: Result<Option<u128>, String>) -> (result: Result<
    TrainingSession,
    String,
>)
    ensures
        mazes == 0 ==> (result matches Err(m) && m@ == "Maze count must be greater than zero."@),
        mazes > 0 ==> match newest {
            Err(error) => (result matches Err(m) && m@ == "Failed to load checkpoints: "@ + error@),
            Ok(None) => (result matches Err(m) && m@ == "No compatible checkpoint was found."@),
            Ok(Some(completed)) => (result matches Ok(session) && session == TrainingSession::new_spec(
                completed,
                TrainingLimit::Mazes(mazes),
            )),
        },
{
    if let Some(refusal) = refuse_zero_mazes(mazes) {
        return Err(refusal);
    }
    match newest {
        Err(error) => {
            let mut message = text_of("Failed to load checkpoints: ");
            message.append(error.as_str());
            Err(message)
        },
        Ok(None) => Err(text_of("No compatible checkpoint was found.")),
        Ok(Some(completed)) => Ok(TrainingSession::new(completed, TrainingLimit::Mazes(mazes))),
    }
}

/// Theseus's node count less the teacher's.
pub fn node_difference(theseus_nodes: usize, teacher_nodes: usize) -> (difference: i128)
    ensures
        difference == theseus_nodes - teacher_nodes,
{
    theseus_nodes as i128 - teacher_nodes as i128
}

/// The word for whether Theseus solved a maze.
pub fn solved_label(solved: bool) -> (label: &'static str)
    ensures
        label@ == (if solved { "Solved"@ } else { "Failed"@ }),
{
    if solved {
        "Solved"
    } else {
        "Failed"
    }
}

/// The state of one checkpoint slot.
#[derive(Debug, Clone, Copy)]
pub enum SlotState {
    /// No checkpoint file is there.
    Missing,
    /// The file is there but cannot be read.
    Unreadable,
    /// A checkpoint of this many completed mazes.
    Completed(u128),
}

/// The first slot, from 0, among the first `n` that holds no file.
pub open spec fn first_missing(states: Seq<SlotState>, n: int) -> Option<int>
    decreases n,
{
    if n <= 0 {
        None
    } else {
        match first_missing(states, n - 1) {
            Some(i) => Some(i),
            None => if states[n - 1] is Missing {
                Some(n - 1)
            } else {
                None
            },
        }
    }
}

/// Which slot, from 0, a new checkpoint is written to when every slot holds
/// a file, looking at the first `n`: the first unreadable one, if one comes
/// before any choice is final, and otherwise the first that holds the
/// fewest completed mazes.
pub open spec fn oldest_slot(states: Seq<SlotState>, n: int) -> (int, u128, bool)
    decreases n,
{
    if n <= 0 {
        (0, u128::MAX, false)
    } else {
        let (slot, oldest, unreadable) = oldest_slot(states, n - 1);
        if unreadable {
            (slot, oldest, true)
        } else {
            match states[n - 1] {
                SlotState::Unreadable => (n - 1, oldest, true),
                SlotState::Completed(c) => if c < oldest {
                    (n - 1, c, false)
                } else {
                    (slot, oldest, false)
                },
                SlotState::Missing => (slot, oldest, false),
            }
        }
    }
}

/// The slot, from 1, that the next checkpoint replaces: the first empty
/// slot, else the first unreadable one, else the first holding the oldest
/// checkpoint (the fewest completed mazes).
pub open spec fn slot_choice(states: Seq<SlotState>) -> int {
    match first_missing(states, states.len() as int) {
        Some(i) => i + 1,
        None => oldest_slot(states, states.len() as int).0 + 1,
    }
}

/// The slot, from 1, that the next checkpoint goes to.
pub fn choose_checkpoint_slot(states: &[SlotState]) -> (slot: usize)
    requires
        states@.len() >= 1,
    ensures
        slot == slot_choice(states@),
        1 <= slot <= states@.len(),
{
    let n = states.len();
    let mut i: usize = 0;
    while i < n
        invariant
            i <= n,
            n == states@.len(),
            first_missing(states@, i as int) is None,
        decreases n - i,
    {
        if let SlotState::Missing = states[i] {
            proof {
                lemma_first_missing_kept(states@, i + 1, n as int);
            }
            return i + 1;
        }
        i = i + 1;
    }
    let mut oldest_index: usize = 0;
    let mut oldest_completed: u128 = u128::MAX;
    let mut k: usize = 0;
    while k < n
        invariant
            k <= n,
            n == states@.len(),
            first_missing(states@, n as int) is None,
            oldest_slot(states@, k as int) == (oldest_index as int, oldest_completed, false),
            oldest_index < n,
        decreases n - k,
    {
        match states[k] {
            SlotState::Completed(completed) => {
                if completed < oldest_completed {
                    oldest_completed = completed;
                    oldest_index = k;
                }
            },
            _ => {
                proof {
                    lemma_no_missing(states@, n as int, k as int);
                    lemma_unreadable_kept(states@, k + 1, n as int);
                }
                return k + 1;
            },
        }
        k = k + 1;
    }
    oldest_index + 1
}

proof fn lemma_first_missing_kept(states: Seq<SlotState>, k: int, n: int)
    requires
        0 <= k <= n,
        first_missing(states, k) is Some,
    ensures
        first_missing(states, n) == first_missing(states, k),
    decreases n - k,
{
    if k < n {
        lemma_first_missing_kept(states, k + 1, n);
    }
}

proof fn lemma_no_missing(states: Seq<SlotState>, n: int, k: int)
    requires
        0 <= k < n,
        first_missing(states, n) is None,
    ensures
        !(states[k] is Missing),
    decreases n,
{
    if n - 1 > k {
        lemma_no_missing(states, n - 1, k);
    }
}

proof fn lemma_unreadable_kept(states: Seq<SlotState>, k: int, n: int)
    requires
        0 <= k <= n,
        oldest_slot(states, k).2,
    ensures
        oldest_slot(states, n) == oldest_slot(states, k),
    decreases n - k,
{
    if k < n {
        lemma_unreadable_kept(states, k + 1, n);
    }
}

/// The path of the checkpoint file of a slot.
pub open spec fn checkpoint_path_text(slot: nat) -> Seq<char> {
    "output/theseus/checkpoints/checkpoint_"@ + decimal(slot) + ".json"@
}

/// The path of the maze file of a slot.
pub open spec fn checkpoint_maze_path_text(slot: nat) -> Seq<char> {
    "output/theseus/checkpoints/checkpoint_"@ + decimal(slot) + "_maze.json"@
}

/// The path of the checkpoint file of a slot.
pub fn checkpoint_path(slot: usize) -> (path: String)
    ensures
        path@ == checkpoint_path_text(slot as nat),
{
    let mut path = text_of("output/theseus/checkpoints/checkpoint_");
    push_decimal(&mut path, slot as u128);
    path.append(".json");
    proof {
        assert(path@ =~= checkpoint_path_text(slot as nat));
    }
    path
}

/// The path of the maze file of a slot.
pub fn checkpoint_maze_path(slot: usize) -> (path: String)
    ensures
        path@ == checkpoint_maze_path_text(slot as nat),
{
    let mut path = text_of("output/theseus/checkpoints/checkpoint_");
    push_decimal(&mut path, slot as u128);
    path.append("_maze.json");
    proof {
        assert(path@ =~= checkpoint_maze_path_text(slot as nat));
    }
    path
}

/// The seconds since the Unix epoch, or 0 when the clock reads earlier.
/// What the clock reads is not stated.
pub fn current_unix_seconds() -> u64 {
    let now = system_time_now();
    match since_unix_epoch(&now) {
        Ok(duration) => duration_as_secs(&duration),
        Err(_) => 0,
    }
}

/// The index of the first of the largest counts, skipping the `None`
/// entries; `None` when there is no count.
pub fn newest_index(counts: &[Option<u128>]) -> (index: Option<usize>)
    ensures
        index is None <==> forall|i: int| 0 <= i < counts@.len() ==> #[trigger] counts@[i] is None,
        index matches Some(i) ==> {
            &&& i < counts@.len()
            &&& counts@[i as int] is Some
            &&& forall|j: int| 0 <= j < counts@.len() && #[trigger] counts@[j] is Some ==> counts@[j]->0 <= counts@[i as int]->0
            &&& forall|j: int| 0 <= j < i && #[trigger] counts@[j] is Some ==> counts@[j]->0 < counts@[i as int]->0
        },
{
    let mut newest: Option<usize> = None;
    let mut k: usize = 0;
    while k < counts.len()
        invariant
            k <= counts@.len(),
            newest is None <==> forall|i: int| 0 <= i < k ==> #[trigger] counts@[i] is None,
            newest matches Some(i) ==> {
                &&& i < k
                &&& counts@[i as int] is Some
                &&& forall|j: int| 0 <= j < k && #[trigger] counts@[j] is Some ==> counts@[j]->0 <= counts@[i as int]->0
                &&& forall|j: int| 0 <= j < i && #[trigger] counts@[j] is Some ==> counts@[j]->0 < counts@[i as int]->0
            },
        decreases counts@.len() - k,
    {
        if let Some(count) = counts[k] {
            let replace = match newest {
                Some(i) => count > counts[i].unwrap(),
                None => true,
            };
            if replace {
                newest = Some(k);
            }
        }
        k = k + 1;
    }
    newest
}


/// Checkpoint `a` comes before checkpoint `b` in the history: it completed
/// fewer mazes, or as many and was read earlier.
pub open spec fn comes_before(counts: Seq<u128>, a: int, b: int) -> bool {
    counts[a] < counts[b] || (counts[a] == counts[b] && a < b)
}

/// `order` lists the indices below `n` in the order of the history.
pub open spec fn history_sorted(counts: Seq<u128>, order: Seq<usize>, n: int) -> bool {
    &&& order.len() == n
    &&& forall|i: int| 0 <= i < n ==> #[trigger] order[i] < n
    &&& forall|i: int, j: int| 0 <= i < j < n ==> comes_before(counts, order[i] as int, order[j] as int)
}

/// The indices of the checkpoints ordered by the number of mazes they
/// completed, those with equal numbers in the order they were read.
pub fn history_order(counts: &[u128]) -> (order: Vec<usize>)
    ensures
        history_sorted(counts@, order@, counts@.len() as int),
        forall|j: usize| j < counts@.len() ==> #[trigger] order@.contains(j),
{
    let n = counts.len();
    let mut order: Vec<usize> = Vec::new();
    let mut k: usize = 0;
    while k < n
        invariant
            k <= n,
            n == counts@.len(),
            history_sorted(counts@, order@, k as int),
            forall|j: usize| j < k ==> #[trigger] order@.contains(j),
        decreases n - k,
    {
        let mut position = order.len();
        while position > 0 && counts[order[position - 1]] > counts[k]
            invariant
                k < n,
                n == counts@.len(),
                order@.len() == k,
                position <= k,
                history_sorted(counts@, order@, k as int),
                forall|i: int| position <= i < k ==> counts@[#[trigger] order@[i] as int] > counts@[k as int],
            decreases position,
        {
            position = position - 1;
        }
        let ghost before = order@;
        order.insert(position, k);
        proof {
            assert(order@ == before.insert(position as int, k));
            assert forall|i: int| 0 <= i < position implies counts@[#[trigger] before[i] as int] <= counts@[k as int] by {
                if position > 0 {
                    assert(counts@[before[position - 1] as int] <= counts@[k as int]);
                    if i < position - 1 {
                        assert(comes_before(counts@, before[i] as int, before[position - 1] as int));
                    }
                }
            }
            assert forall|i: int, j: int| 0 <= i < j < k + 1 implies comes_before(counts@, order@[i] as int, order@[j] as int) by {
                if j < position {
                    assert(order@[i] == before[i] && order@[j] == before[j]);
                } else if j == position {
                    assert(order@[i] == before[i]);
                } else if i == position {
                    assert(order@[j] == before[j - 1]);
                } else if i < position {
                    assert(order@[i] == before[i] && order@[j] == before[j - 1]);
                } else {
                    assert(order@[i] == before[i - 1] && order@[j] == before[j - 1]);
                }
            }
            assert forall|j: usize| j < k + 1 implies #[trigger] order@.contains(j) by {
                if j < k {
                    assert(before.contains(j));
                    let i = choose|i: int| 0 <= i < before.len() && before[i] == j;
                    if i < position {
                        assert(order@[i] == j);
                    } else {
                        assert(order@[i + 1] == j);
                    }
                } else {
                    assert(order@[position as int] == k);
                }
            }
        }
        k = k + 1;
    }
    order
}
} // verus!

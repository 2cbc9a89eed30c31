use vstd::prelude::*;

use crate::config::{difficulty_from_size, size_class, Difficulty};
use crate::text::{
    clock_text, decimal, format_seconds, parse_u128, parsed_unsigned, push_decimal, push_signed_decimal, signed_decimal,
    text_of,
};

verus! {

/// Seconds between two progress reports of a running training.
pub const UPDATE_INTERVAL_SECONDS: u64 = 600;

/// Whether a training starts a new model or resumes the newest checkpoint.
#[derive(Debug, Clone, Copy, PartialEq, Eq, Structural)]
pub enum TrainingMode {
    New,
    Resume,
}

/// Which training limit a request gave.
#[derive(Debug, Clone, Copy, PartialEq, Eq, Structural)]
pub enum LimitChoice {
    /// A number of mazes, above zero.
    Mazes(u64),
    /// A number of hours, which the caller checks to be a finite number above zero.
    Hours,
}

/// Reads the options of a training request: exactly one of a number of
/// mazes (above zero) and a number of hours must be given.
pub fn parse_training_limit(mazes: Option<i64>, hours_given: bool) -> (result: Result<LimitChoice, String>)
    ensures
        match (mazes, hours_given) {
            (Some(m), false) => if m <= 0 {
                (result matches Err(message) && message@ == "Mazes must be greater than zero."@)
            } else {
                result matches Ok(LimitChoice::Mazes(n)) && n == m
            },
            (None, true) => result matches Ok(LimitChoice::Hours),
            (Some(_), true) => (result matches Err(message) && message@
                == "Supply either `mazes` or `hours`, not both."@),
            (None, false) => (result matches Err(message) && message@
                == "Supply either a maze count or a number of hours."@),
        },
{
    match (mazes, hours_given) {
        (Some(m), false) => {
            if m <= 0 {
                return Err(text_of("Mazes must be greater than zero."));
            }
            Ok(LimitChoice::Mazes(m as u64))
        },
        (None, true) => Ok(LimitChoice::Hours),
        (Some(_), true) => Err(text_of("Supply either `mazes` or `hours`, not both.")),
        (None, false) => Err(text_of("Supply either a maze count or a number of hours.")),
    }
}

/// A training limit as requested: a number of mazes, or a number of hours
/// as the caller writes it.
pub enum RequestedLimit {
    Mazes(u64),
    Hours(String),
}

/// How a limit reads in messages.
pub open spec fn limit_description_text(limit: RequestedLimit) -> Seq<char> {
    match limit {
        RequestedLimit::Mazes(mazes) => decimal(mazes as nat) + " maze(s)"@,
        RequestedLimit::Hours(hours) => hours@ + " hour(s)"@,
    }
}

/// How a limit reads in messages.
pub fn limit_description(limit: &RequestedLimit) -> (text: String)
    ensures
        text@ == limit_description_text(*limit),
{
    let mut text = String::new();
    match limit {
        RequestedLimit::Mazes(mazes) => {
            push_decimal(&mut text, *mazes as u128);
            text.append(" maze(s)");
        },
        RequestedLimit::Hours(hours) => {
            text.append(hours.as_str());
            text.append(" hour(s)");
        },
    }
    proof {
        assert(text@ =~= limit_description_text(*limit));
    }
    text
}

/// The Theseus subcommand of a mode.
pub open spec fn mode_command_text(mode: TrainingMode) -> Seq<char> {
    match mode {
        TrainingMode::New => "train-new"@,
        TrainingMode::Resume => "train-resume"@,
    }
}

/// The name of a mode in a session's description.
pub open spec fn mode_session_text(mode: TrainingMode) -> Seq<char> {
    match mode {
        TrainingMode::New => "New training"@,
        TrainingMode::Resume => "Resume training"@,
    }
}

/// The option and its value that pass a limit to Theseus.
pub open spec fn limit_option_text(limit: RequestedLimit) -> (Seq<char>, Seq<char>) {
    match limit {
        RequestedLimit::Mazes(mazes) => ("--mazes"@, decimal(mazes as nat)),
        RequestedLimit::Hours(hours) => ("--hours"@, hours@),
    }
}

/// The program, its arguments and the session description of a training:
/// `cargo run --release -p theseus -- <command> <option> <value>`.
pub fn training_command(mode: TrainingMode, limit: &RequestedLimit) -> (command: (&'static str, Vec<String>, String))
    ensures
        command.0@ == "cargo"@,
        command.1@.len() == 8,
        command.1@[0]@ == "run"@,
        command.1@[1]@ == "--release"@,
        command.1@[2]@ == "-p"@,
        command.1@[3]@ == "theseus"@,
        command.1@[4]@ == "--"@,
        command.1@[5]@ == mode_command_text(mode),
        command.1@[6]@ == limit_option_text(*limit).0,
        command.1@[7]@ == limit_option_text(*limit).1,
        command.2@ == mode_session_text(mode) + " — "@ + limit_description_text(*limit),
{
    let subcommand = match mode {
        TrainingMode::New => "train-new",
        TrainingMode::Resume => "train-resume",
    };
    let mut arguments: Vec<String> = Vec::new();
    arguments.push(text_of("run"));
    arguments.push(text_of("--release"));
    arguments.push(text_of("-p"));
    arguments.push(text_of("theseus"));
    arguments.push(text_of("--"));
    arguments.push(text_of(subcommand));
    match limit {
        RequestedLimit::Mazes(mazes) => {
            arguments.push(text_of("--mazes"));
            let mut value = String::new();
            push_decimal(&mut value, *mazes as u128);
            arguments.push(value);
        },
        RequestedLimit::Hours(hours) => {
            arguments.push(text_of("--hours"));
            arguments.push(hours.clone());
        },
    }
    let mut description = text_of(
        match mode {
            TrainingMode::New => "New training",
            TrainingMode::Resume => "Resume training",
        },
    );
    description.append(" — ");
    let limit_text = limit_description(limit);
    description.append(limit_text.as_str());
    proof {
        assert(description@ =~= mode_session_text(mode) + " — "@ + limit_description_text(*limit));
    }
    ("cargo", arguments, description)
}

/// The name of a mode in the message that announces a training.
pub open spec fn mode_label_text(mode: TrainingMode) -> Seq<char> {
    match mode {
        TrainingMode::New => "New model"@,
        TrainingMode::Resume => "Resume checkpoint"@,
    }
}

/// The message that announces a training that was started.
pub fn training_started_message(mode: TrainingMode, limit: &RequestedLimit) -> (text: String)
    ensures
        text@ == "Theseus training started.\nMode: "@ + mode_label_text(mode) + "\nLimit: "@ + limit_description_text(
            *limit,
        ) + "\nProgress updates will be sent every 10 minutes."@,
{
    let mut text = text_of("Theseus training started.\nMode: ");
    text.append(
        match mode {
            TrainingMode::New => "New model",
            TrainingMode::Resume => "Resume checkpoint",
        },
    );
    text.append("\nLimit: ");
    let limit_text = limit_description(limit);
    text.append(limit_text.as_str());
    text.append("\nProgress updates will be sent every 10 minutes.");
    proof {
        assert(text@ =~= "Theseus training started.\nMode: "@ + mode_label_text(mode) + "\nLimit: "@
            + limit_description_text(*limit) + "\nProgress updates will be sent every 10 minutes."@);
    }
    text
}

/// The message that refuses a training while another one runs.
pub fn already_training_message(description: &str, elapsed_seconds: u64) -> (text: String)
    ensures
        text@ == "Theseus is already training.\nCurrent session: "@ + description@ + "\nElapsed: "@ + clock_text(
            elapsed_seconds as nat,
        ),
{
    let mut text = text_of("Theseus is already training.\nCurrent session: ");
    text.append(description);
    text.append("\nElapsed: ");
    let elapsed = format_seconds(elapsed_seconds);
    text.append(elapsed.as_str());
    proof {
        assert(text@ =~= "Theseus is already training.\nCurrent session: "@ + description@ + "\nElapsed: "@ + clock_text(
            elapsed_seconds as nat,
        ));
    }
    text
}

/// The difficulty that a lower-case name given to the generate command
/// names, if any.
pub open spec fn difficulty_named(name: Seq<char>) -> Option<Difficulty> {
    if name == "easy"@ {
        Some(Difficulty::Easy)
    } else if name == "medium"@ {
        Some(Difficulty::Medium)
    } else if name == "hard"@ {
        Some(Difficulty::Hard)
    } else if name == "labyrinthian"@ {
        Some(Difficulty::Labyrinthian)
    } else {
        None
    }
}

fn is_name(text: &str, name: &str) -> (same: bool)
    ensures
        same == (text@ == name@),
{
    let a = text_of(text);
    let b = text_of(name);
    a == b
}

/// The difficulty that the generate command's lower-cased argument names.
pub fn difficulty_from_name(name: &str) -> (difficulty: Option<Difficulty>)
    ensures
        difficulty == difficulty_named(name@),
{
    if is_name(name, "easy") {
        Some(Difficulty::Easy)
    } else if is_name(name, "medium") {
        Some(Difficulty::Medium)
    } else if is_name(name, "hard") {
        Some(Difficulty::Hard)
    } else if is_name(name, "labyrinthian") {
        Some(Difficulty::Labyrinthian)
    } else {
        None
    }
}

/// The reply to a generate command that names no difficulty.
pub fn invalid_difficulty_message() -> (text: String)
    ensures
        text@ == "Invalid difficulty. Use easy, medium, hard, or labyrinthian."@,
{
    text_of("Invalid difficulty. Use easy, medium, hard, or labyrinthian.")
}

/// `true` or `false`, as Rust writes a `bool`.
pub open spec fn bool_text(b: bool) -> Seq<char> {
    if b {
        "true"@
    } else {
        "false"@
    }
}

/// The reply to a generate command once the maze files are saved.
pub open spec fn generated_text(
    d: Difficulty,
    width: nat,
    height: nat,
    square: bool,
    json_path: Seq<char>,
    svg_path: Seq<char>,
) -> Seq<char> {
    "Generated "@ + d.label_text() + " maze.\nSize: "@ + decimal(width) + "x"@ + decimal(height) + "\nSquare: "@
        + bool_text(square) + "\nFiles saved:\n- `"@ + json_path + "`\n- `"@ + svg_path + "`"@
}

/// The reply to a generate command once the maze files are saved.
pub fn generated_message(
    difficulty: Difficulty,
    width: usize,
    height: usize,
    square: bool,
    json_path: &str,
    svg_path: &str,
) -> (text: String)
    ensures
        text@ == generated_text(difficulty, width as nat, height as nat, square, json_path@, svg_path@),
{
    let mut text = text_of("Generated ");
    text.append(difficulty.label());
    text.append(" maze.\nSize: ");
    push_decimal(&mut text, width as u128);
    text.append("x");
    push_decimal(&mut text, height as u128);
    text.append("\nSquare: ");
    if square {
        text.append("true");
    } else {
        text.append("false");
    }
    text.append("\nFiles saved:\n- `");
    text.append(json_path);
    text.append("`\n- `");
    text.append(svg_path);
    text.append("`");
    proof {
        assert(text@ =~= generated_text(difficulty, width as nat, height as nat, square, json_path@, svg_path@));
    }
    text
}

/// The reply to a training request while another training runs, given the
/// running training's description and seconds since it started; `None`
/// when none runs and the training may start.
pub fn start_refusal(running: &Option<(String, u64)>) -> (refusal: Option<String>)
    ensures
        match running {
            None => refusal is None,
            Some((description, elapsed)) => refusal matches Some(text) && text@ == "Theseus is already training.\nCurrent session: "@
                + description@ + "\nElapsed: "@ + clock_text(*elapsed as nat),
        },
{
    match running {
        None => None,
        Some((description, elapsed)) => Some(already_training_message(description.as_str(), *elapsed)),
    }
}

/// A counter of a checkpoint record, stored as a JSON number when it fits
/// in a `u64` and as a decimal string otherwise: the number when there is
/// one, else what the string reads as.
pub fn stored_counter(number: Option<u64>, text: Option<&str>) -> (value: Option<u128>)
    ensures
        value == (match number {
            Some(n) => Some(n as u128),
            None => match text {
                Some(t) => match parsed_unsigned(t@, u128::MAX as nat) {
                    Some(v) => Some(v as u128),
                    None => None,
                },
                None => None,
            },
        }),
{
    match number {
        Some(n) => Some(n as u128),
        None => match text {
            Some(t) => parse_u128(t),
            None => None,
        },
    }
}

/// What a look at the training process found.
#[derive(Debug, Clone, Copy, PartialEq, Eq, Structural)]
pub enum ProcessCheck {
    /// No training is recorded.
    NoTraining,
    /// A different training than the one watched is recorded.
    OtherTraining,
    /// The process ended, successfully or not.
    Exited { success: bool },
    /// The process still runs.
    Running,
    /// The process could not be asked.
    CheckFailed,
}

/// What the watcher of a training does after a look.
#[derive(Debug, Clone, Copy, PartialEq, Eq, Structural)]
pub enum MonitorAction {
    /// Stop watching, silently.
    Stop,
    /// Report that watching failed, and stop.
    ReportCheckFailure,
    /// Report the end of the training, and stop.
    ReportFinished { success: bool },
    /// Report the progress, and restart the interval.
    ReportProgress,
    /// Look again later.
    Wait,
}

/// What the watcher does after a look that found `check`,
/// `seconds_since_update` seconds after the last report (or the start).
pub open spec fn monitor_decision(check: ProcessCheck, seconds_since_update: int) -> MonitorAction {
    match check {
        ProcessCheck::NoTraining => MonitorAction::Stop,
        ProcessCheck::OtherTraining => MonitorAction::Stop,
        ProcessCheck::CheckFailed => MonitorAction::ReportCheckFailure,
        ProcessCheck::Exited { success } => MonitorAction::ReportFinished { success },
        ProcessCheck::Running => if seconds_since_update >= UPDATE_INTERVAL_SECONDS {
            MonitorAction::ReportProgress
        } else {
            MonitorAction::Wait
        },
    }
}

/// The times of the progress reports of a watch whose looks found what
/// `looks` holds, each with the time of the look, the last report (or the
/// start) being at `last`: a report restarts the interval, and the watch
/// ends at the first look that neither waits nor reports progress.
pub open spec fn progress_times(looks: Seq<(ProcessCheck, int)>, last: int) -> Seq<int>
    decreases looks.len(),
{
    if looks.len() == 0 {
        Seq::empty()
    } else {
        let (check, time) = looks[0];
        match monitor_decision(check, time - last) {
            MonitorAction::ReportProgress => seq![time] + progress_times(looks.drop_first(), time),
            MonitorAction::Wait => progress_times(looks.drop_first(), last),
            _ => Seq::empty(),
        }
    }
}

/// The watch goes on after a look exactly when the look found the training running.
pub open spec fn keeps_watching(action: MonitorAction) -> bool {
    action is Wait || action is ReportProgress
}

/// What to do after a look that found `check`, `seconds_since_update`
/// seconds after the last report (or the start).
pub fn monitor_action(check: ProcessCheck, seconds_since_update: u64) -> (action: MonitorAction)
    ensures
        action == monitor_decision(check, seconds_since_update as int),
{
    match check {
        ProcessCheck::NoTraining => MonitorAction::Stop,
        ProcessCheck::OtherTraining => MonitorAction::Stop,
        ProcessCheck::CheckFailed => MonitorAction::ReportCheckFailure,
        ProcessCheck::Exited { success } => MonitorAction::ReportFinished { success },
        ProcessCheck::Running => if seconds_since_update >= UPDATE_INTERVAL_SECONDS {
            MonitorAction::ReportProgress
        } else {
            MonitorAction::Wait
        },
    }
}

/// The title of the report at the end of a training.
pub fn finished_title(success: bool) -> (title: &'static str)
    ensures
        title@ == (if success { "Theseus Training Finished"@ } else { "Theseus Training Failed"@ }),
{
    if success {
        "Theseus Training Finished"
    } else {
        "Theseus Training Failed"
    }
}

/// The report that watching a training failed.
pub fn monitor_failure_message(error: &str) -> (text: String)
    ensures
        text@ == "Theseus training monitor failed: "@ + error@,
{
    let mut text = text_of("Theseus training monitor failed: ");
    text.append(error);
    text
}

/// The note that points at the logs of a failed training.
pub fn failure_log_note(stdout_path: &str, stderr_path: &str) -> (text: String)
    ensures
        text@ == "\n\nCheck the Hermes training logs:"@ + "\n`"@ + stdout_path@ + "`\n`"@ + stderr_path@ + "`"@,
{
    let mut text = text_of("\n\nCheck the Hermes training logs:");
    text.append("\n`");
    text.append(stdout_path);
    text.append("`\n`");
    text.append(stderr_path);
    text.append("`");
    proof {
        assert(text@ =~= "\n\nCheck the Hermes training logs:"@ + "\n`"@ + stdout_path@ + "`\n`"@ + stderr_path@ + "`"@);
    }
    text
}

/// The report at the end of a training when no checkpoint can be read.
pub fn finished_without_checkpoint(title: &str, elapsed_seconds: u64, stdout_path: &str, stderr_path: &str) -> (text:
    String)
    ensures
        text@ == title@ + "\nElapsed: "@ + clock_text(elapsed_seconds as nat)
            + "\nNo compatible checkpoint was found.\nLogs:\n`"@ + stdout_path@ + "`\n`"@ + stderr_path@ + "`"@,
{
    let mut text = text_of(title);
    text.append("\nElapsed: ");
    let elapsed = format_seconds(elapsed_seconds);
    text.append(elapsed.as_str());
    text.append("\nNo compatible checkpoint was found.\nLogs:\n`");
    text.append(stdout_path);
    text.append("`\n`");
    text.append(stderr_path);
    text.append("`");
    proof {
        assert(text@ =~= title@ + "\nElapsed: "@ + clock_text(elapsed_seconds as nat)
            + "\nNo compatible checkpoint was found.\nLogs:\n`"@ + stdout_path@ + "`\n`"@ + stderr_path@ + "`"@);
    }
    text
}

/// The progress report of a running training when no checkpoint can be read.
pub fn progress_without_checkpoint(elapsed_seconds: u64) -> (text: String)
    ensures
        text@ == "Theseus 10-Minute Update\nState: Running\nElapsed: "@ + clock_text(elapsed_seconds as nat)
            + "\nNo completed checkpoint is available yet."@,
{
    let mut text = text_of("Theseus 10-Minute Update\nState: Running\nElapsed: ");
    let elapsed = format_seconds(elapsed_seconds);
    text.append(elapsed.as_str());
    text.append("\nNo completed checkpoint is available yet.");
    proof {
        assert(text@ =~= "Theseus 10-Minute Update\nState: Running\nElapsed: "@ + clock_text(elapsed_seconds as nat)
            + "\nNo completed checkpoint is available yet."@);
    }
    text
}

/// The status of a running training when no checkpoint can be read.
pub fn running_status_without_checkpoint(description: &str, elapsed_seconds: u64) -> (text: String)
    ensures
        text@ == "Theseus Training Status\nState: Running\nSession: "@ + description@ + "\nElapsed: "@ + clock_text(
            elapsed_seconds as nat,
        ) + "\nNo completed checkpoint is available yet."@,
{
    let mut text = text_of("Theseus Training Status\nState: Running\nSession: ");
    text.append(description);
    text.append("\nElapsed: ");
    let elapsed = format_seconds(elapsed_seconds);
    text.append(elapsed.as_str());
    text.append("\nNo completed checkpoint is available yet.");
    proof {
        assert(text@ =~= "Theseus Training Status\nState: Running\nSession: "@ + description@ + "\nElapsed: "@
            + clock_text(elapsed_seconds as nat) + "\nNo completed checkpoint is available yet."@);
    }
    text
}

/// The status when no training runs and no checkpoint can be read.
pub fn idle_status_without_checkpoint() -> (text: String)
    ensures
        text@ == "Theseus Training Status\nState: Not running\nNo compatible checkpoint was found."@,
{
    text_of("Theseus Training Status\nState: Not running\nNo compatible checkpoint was found.")
}

/// The counts of a checkpoint that its report states.
pub struct CheckpointCounts {
    pub mazes_completed: u128,
    pub total_examples_trained: u128,
    pub theseus_solved: bool,
    pub theseus_nodes_explored: u128,
    pub latest_teacher: String,
    pub teacher_nodes_explored: u128,
    pub maze_width: u64,
    pub maze_height: u64,
}

/// A count read as an `i128`, the way `as` reads it: counts above
/// `i128::MAX` wrap around to negative values.
pub open spec fn count_as_i128(count: nat) -> int {
    if count <= i128::MAX {
        count as int
    } else {
        count - 0x1_0000_0000_0000_0000_0000_0000_0000_0000
    }
}

/// Theseus's node count less the teacher's, each read as an `i128`.
pub open spec fn node_difference_value(theseus: nat, teacher: nat) -> int {
    count_as_i128(theseus) - count_as_i128(teacher)
}

/// The difference fits in an `i128`; otherwise the subtraction overflows.
pub open spec fn node_difference_fits(c: CheckpointCounts) -> bool {
    i128::MIN <= node_difference_value(c.theseus_nodes_explored as nat, c.teacher_nodes_explored as nat) <= i128::MAX
}

/// Theseus's node count less the teacher's, written with its sign.
pub open spec fn node_difference_text(theseus: nat, teacher: nat) -> Seq<char> {
    signed_decimal(node_difference_value(theseus, teacher))
}

/// A count read as an `i128`, wrapping above `i128::MAX` as `as` does.
fn count_to_i128(count: u128) -> (value: i128)
    ensures
        value == count_as_i128(count as nat),
{
    if count <= i128::MAX as u128 {
        count as i128
    } else {
        let above: u128 = count - (i128::MAX as u128) - 1;
        (above as i128) + i128::MIN
    }
}

/// The report of a checkpoint up to its loss and accuracy: the title, the
/// totals, the latest maze with its difficulty and size, how Theseus and the
/// teacher did, and the difference of their node counts.
pub open spec fn checkpoint_head_text(title: Seq<char>, c: CheckpointCounts) -> Seq<char> {
    title + "\nMazes completed: "@ + decimal(c.mazes_completed as nat) + "\nExamples trained: "@ + decimal(
        c.total_examples_trained as nat,
    ) + "\nLatest maze: "@ + size_class(c.maze_width as int).label_text() + " ("@ + decimal(c.maze_width as nat) + "x"@
        + decimal(c.maze_height as nat) + ")\nTheseus: "@ + (if c.theseus_solved { "Solved"@ } else { "Failed"@ })
        + "\nTheseus nodes: "@ + decimal(c.theseus_nodes_explored as nat) + "\nTeacher: "@ + c.latest_teacher@
        + "\nTeacher nodes: "@ + decimal(c.teacher_nodes_explored as nat) + "\nNode difference: "@
        + node_difference_text(c.theseus_nodes_explored as nat, c.teacher_nodes_explored as nat) + "\n"@
}

/// The report of a checkpoint up to its loss and accuracy, which the caller
/// writes next.
pub fn checkpoint_message_head(title: &str, counts: &CheckpointCounts) -> (text: String)
    requires
        node_difference_fits(*counts),
    ensures
        text@ == checkpoint_head_text(title@, *counts),
{
    let mut text = text_of(title);
    text.append("\nMazes completed: ");
    push_decimal(&mut text, counts.mazes_completed);
    text.append("\nExamples trained: ");
    push_decimal(&mut text, counts.total_examples_trained);
    text.append("\nLatest maze: ");
    text.append(difficulty_from_size(counts.maze_width));
    text.append(" (");
    push_decimal(&mut text, counts.maze_width as u128);
    text.append("x");
    push_decimal(&mut text, counts.maze_height as u128);
    text.append(")\nTheseus: ");
    text.append(if counts.theseus_solved { "Solved" } else { "Failed" });
    text.append("\nTheseus nodes: ");
    push_decimal(&mut text, counts.theseus_nodes_explored);
    text.append("\nTeacher: ");
    text.append(counts.latest_teacher.as_str());
    text.append("\nTeacher nodes: ");
    push_decimal(&mut text, counts.teacher_nodes_explored);
    text.append("\nNode difference: ");
    let difference = count_to_i128(counts.theseus_nodes_explored) - count_to_i128(counts.teacher_nodes_explored);
    push_signed_decimal(&mut text, difference);
    text.append("\n");
    proof {
        assert(text@ =~= checkpoint_head_text(title@, *counts));
    }
    text
}

/// The line that closes a report with the time a training has run.
pub fn elapsed_line(elapsed_seconds: u64) -> (text: String)
    ensures
        text@ == "\nElapsed: "@ + clock_text(elapsed_seconds as nat),
{
    let mut text = text_of("\nElapsed: ");
    let elapsed = format_seconds(elapsed_seconds);
    text.append(elapsed.as_str());
    text
}

/// The line that adds the session to a status report.
pub fn session_line(description: &str) -> (text: String)
    ensures
        text@ == "\nSession: "@ + description@,
{
    let mut text = text_of("\nSession: ");
    text.append(description);
    text
}

} // verus!

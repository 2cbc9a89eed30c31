use labyrinth::config::Difficulty;
use labyrinth::command::{parse_command, parse_training_limit, Command, LimitArgument};
use labyrinth::monitor::{
    already_training_message, checkpoint_message_head, difficulty_from_name, generated_message,
    invalid_difficulty_message, start_refusal, stored_counter, elapsed_line, failure_log_note, finished_title,
    finished_without_checkpoint, idle_status_without_checkpoint, limit_description, monitor_action,
    monitor_failure_message, progress_without_checkpoint, running_status_without_checkpoint, session_line,
    training_command, training_started_message, CheckpointCounts, LimitChoice, MonitorAction, ProcessCheck,
    RequestedLimit, TrainingMode,
};

fn args(items: &[&str]) -> Vec<String> {
    items.iter().map(|item| item.to_string()).collect()
}

#[test]
fn training_commands_read_their_limits() {
    match parse_command(&args(&["train-new", "--mazes", "12"])) {
        Ok(Command::TrainNew(LimitArgument::Mazes(12))) => {}
        other => panic!("unexpected {other:?}"),
    }
    match parse_command(&args(&["train-resume", "--hours", "1.5"])) {
        Ok(Command::TrainResume(LimitArgument::Hours(hours))) => assert_eq!(hours, "1.5"),
        other => panic!("unexpected {other:?}"),
    }
    match parse_command(&args(&["train-new", "--mazes", "+7"])) {
        Ok(Command::TrainNew(LimitArgument::Mazes(7))) => {}
        other => panic!("unexpected {other:?}"),
    }
}

#[test]
fn simple_commands() {
    assert!(matches!(parse_command(&args(&["training-stats"])), Ok(Command::TrainingStats)));
    assert!(matches!(parse_command(&args(&["solve"])), Ok(Command::Solve)));
    assert!(matches!(parse_command(&args(&["help"])), Ok(Command::Help)));
    assert!(matches!(parse_command(&args(&["--help"])), Ok(Command::Help)));
    assert!(matches!(parse_command(&args(&["-h"])), Ok(Command::Help)));
}

#[test]
fn unknown_command_is_refused() {
    assert_eq!(
        parse_command(&args(&["fly"])).unwrap_err(),
        "Unknown command \"fly\".\nRun `cargo run -p theseus -- help`."
    );
}

#[test]
fn bad_limits_are_refused() {
    assert_eq!(
        parse_training_limit(&args(&["--mazes"])).unwrap_err(),
        "Supply exactly one training limit:\n--mazes <count>\n--hours <hours>"
    );
    assert_eq!(
        parse_training_limit(&args(&["--mazes", "0"])).unwrap_err(),
        "Maze count must be greater than zero."
    );
    assert_eq!(
        parse_training_limit(&args(&["--mazes", "ten"])).unwrap_err(),
        "Maze count must be a whole number."
    );
    assert_eq!(
        parse_training_limit(&args(&["--days", "2"])).unwrap_err(),
        "Unknown training limit \"--days\".\nUse --mazes <count> or --hours <hours>."
    );
    assert_eq!(
        parse_command(&args(&["train-resume", "--mazes", "-3"])).unwrap_err(),
        "Maze count must be a whole number."
    );
}

#[test]
fn request_limits() {
    assert_eq!(labyrinth::monitor::parse_training_limit(Some(3), false), Ok(LimitChoice::Mazes(3)));
    assert_eq!(
        labyrinth::monitor::parse_training_limit(Some(0), false).unwrap_err(),
        "Mazes must be greater than zero."
    );
    assert_eq!(
        labyrinth::monitor::parse_training_limit(Some(-4), false).unwrap_err(),
        "Mazes must be greater than zero."
    );
    assert_eq!(labyrinth::monitor::parse_training_limit(None, true), Ok(LimitChoice::Hours));
    assert_eq!(
        labyrinth::monitor::parse_training_limit(Some(2), true).unwrap_err(),
        "Supply either `mazes` or `hours`, not both."
    );
    assert_eq!(
        labyrinth::monitor::parse_training_limit(None, false).unwrap_err(),
        "Supply either a maze count or a number of hours."
    );
}

#[test]
fn training_command_line() {
    let (program, arguments, description) = training_command(TrainingMode::New, &RequestedLimit::Mazes(4));
    assert_eq!(program, "cargo");
    assert_eq!(arguments, args(&["run", "--release", "-p", "theseus", "--", "train-new", "--mazes", "4"]));
    assert_eq!(description, "New training — 4 maze(s)");
    let (_, arguments, description) = training_command(TrainingMode::Resume, &RequestedLimit::Hours("2.5".to_string()));
    assert_eq!(arguments, args(&["run", "--release", "-p", "theseus", "--", "train-resume", "--hours", "2.5"]));
    assert_eq!(description, "Resume training — 2.5 hour(s)");
}

#[test]
fn limit_descriptions() {
    assert_eq!(limit_description(&RequestedLimit::Mazes(1)), "1 maze(s)");
    assert_eq!(limit_description(&RequestedLimit::Hours("0.25".to_string())), "0.25 hour(s)");
}

#[test]
fn monitor_decisions() {
    assert_eq!(monitor_action(ProcessCheck::NoTraining, 0), MonitorAction::Stop);
    assert_eq!(monitor_action(ProcessCheck::OtherTraining, 9999), MonitorAction::Stop);
    assert_eq!(monitor_action(ProcessCheck::CheckFailed, 0), MonitorAction::ReportCheckFailure);
    assert_eq!(
        monitor_action(ProcessCheck::Exited { success: false }, 0),
        MonitorAction::ReportFinished { success: false }
    );
    assert_eq!(monitor_action(ProcessCheck::Running, 599), MonitorAction::Wait);
    assert_eq!(monitor_action(ProcessCheck::Running, 600), MonitorAction::ReportProgress);
}

#[test]
fn monitor_messages() {
    assert_eq!(finished_title(true), "Theseus Training Finished");
    assert_eq!(finished_title(false), "Theseus Training Failed");
    assert_eq!(monitor_failure_message("gone"), "Theseus training monitor failed: gone");
    assert_eq!(
        failure_log_note("out.log", "err.log"),
        "\n\nCheck the Hermes training logs:\n`out.log`\n`err.log`"
    );
    assert_eq!(
        finished_without_checkpoint("Theseus Training Failed", 65, "out.log", "err.log"),
        "Theseus Training Failed\nElapsed: 00:01:05\nNo compatible checkpoint was found.\nLogs:\n`out.log`\n`err.log`"
    );
    assert_eq!(
        progress_without_checkpoint(3600),
        "Theseus 10-Minute Update\nState: Running\nElapsed: 01:00:00\nNo completed checkpoint is available yet."
    );
    assert_eq!(
        running_status_without_checkpoint("New training — 3 maze(s)", 5),
        "Theseus Training Status\nState: Running\nSession: New training — 3 maze(s)\nElapsed: 00:00:05\nNo completed checkpoint is available yet."
    );
    assert_eq!(
        idle_status_without_checkpoint(),
        "Theseus Training Status\nState: Not running\nNo compatible checkpoint was found."
    );
    assert_eq!(
        already_training_message("Resume training — 2 hour(s)", 7322),
        "Theseus is already training.\nCurrent session: Resume training — 2 hour(s)\nElapsed: 02:02:02"
    );
    assert_eq!(
        training_started_message(TrainingMode::Resume, &RequestedLimit::Mazes(9)),
        "Theseus training started.\nMode: Resume checkpoint\nLimit: 9 maze(s)\nProgress updates will be sent every 10 minutes."
    );
    assert_eq!(elapsed_line(61), "\nElapsed: 00:01:01");
    assert_eq!(session_line("x"), "\nSession: x");
}

#[test]
fn checkpoint_report_head() {
    let counts = CheckpointCounts {
        mazes_completed: 12,
        total_examples_trained: 345,
        theseus_solved: true,
        theseus_nodes_explored: 40,
        latest_teacher: "BFS".to_string(),
        teacher_nodes_explored: 52,
        maze_width: 64,
        maze_height: 31,
    };
    assert_eq!(
        checkpoint_message_head("Theseus Training Data", &counts),
        "Theseus Training Data\nMazes completed: 12\nExamples trained: 345\nLatest maze: Medium (64x31)\nTheseus: Solved\nTheseus nodes: 40\nTeacher: BFS\nTeacher nodes: 52\nNode difference: -12\n"
    );
    let even = CheckpointCounts { theseus_solved: false, teacher_nodes_explored: 40, maze_width: 300, ..counts };
    assert_eq!(
        checkpoint_message_head("T", &even),
        "T\nMazes completed: 12\nExamples trained: 345\nLatest maze: Labyrinthian (300x31)\nTheseus: Failed\nTheseus nodes: 40\nTeacher: BFS\nTeacher nodes: 40\nNode difference: +0\n"
    );
}

#[test]
fn generate_command_names_difficulties_in_lower_case() {
    assert_eq!(difficulty_from_name("easy"), Some(Difficulty::Easy));
    assert_eq!(difficulty_from_name("medium"), Some(Difficulty::Medium));
    assert_eq!(difficulty_from_name("hard"), Some(Difficulty::Hard));
    assert_eq!(difficulty_from_name("labyrinthian"), Some(Difficulty::Labyrinthian));
    assert_eq!(difficulty_from_name("Easy"), None);
    assert_eq!(difficulty_from_name("extreme"), None);
    assert_eq!(invalid_difficulty_message(), "Invalid difficulty. Use easy, medium, hard, or labyrinthian.");
}

#[test]
fn generate_command_reports_the_saved_maze() {
    assert_eq!(
        generated_message(Difficulty::Hard, 120, 87, false, "output/maze.json", "output/maze.svg"),
        "Generated Hard maze.\nSize: 120x87\nSquare: false\nFiles saved:\n- `output/maze.json`\n- `output/maze.svg`"
    );
    assert_eq!(
        generated_message(Difficulty::Easy, 20, 20, true, "a", "b"),
        "Generated Easy maze.\nSize: 20x20\nSquare: true\nFiles saved:\n- `a`\n- `b`"
    );
}

#[test]
fn a_training_is_refused_while_another_runs() {
    assert_eq!(start_refusal(&None), None);
    assert_eq!(
        start_refusal(&Some(("New training — 5 maze(s)".to_string(), 3725))),
        Some("Theseus is already training.\nCurrent session: New training — 5 maze(s)\nElapsed: 01:02:05".to_string())
    );
}

#[test]
fn stored_counters_read_numbers_and_decimal_strings() {
    assert_eq!(stored_counter(Some(42), None), Some(42));
    assert_eq!(stored_counter(Some(7), Some("9")), Some(7));
    assert_eq!(stored_counter(None, Some("340282366920938463463374607431768211455")), Some(u128::MAX));
    assert_eq!(stored_counter(None, Some("12a")), None);
    assert_eq!(stored_counter(None, None), None);
}

#[test]
fn theseus_reads_back_the_limit_of_a_requested_training() {
    let (_, arguments, _) = training_command(TrainingMode::Resume, &RequestedLimit::Mazes(1234));
    match parse_command(&arguments[5..]) {
        Ok(Command::TrainResume(LimitArgument::Mazes(count))) => assert_eq!(count, 1234),
        other => panic!("unexpected {other:?}"),
    }
    let (_, arguments, _) = training_command(TrainingMode::New, &RequestedLimit::Hours("2.5".to_string()));
    match parse_command(&arguments[5..]) {
        Ok(Command::TrainNew(LimitArgument::Hours(hours))) => assert_eq!(hours, "2.5"),
        other => panic!("unexpected {other:?}"),
    }
}

#[test]
fn node_difference_reads_counts_as_i128() {
    let counts = CheckpointCounts {
        mazes_completed: 1,
        total_examples_trained: 2,
        theseus_solved: true,
        theseus_nodes_explored: u128::MAX,
        latest_teacher: "DFS".to_string(),
        teacher_nodes_explored: 3,
        maze_width: 20,
        maze_height: 20,
    };
    let head = checkpoint_message_head("T", &counts);
    assert!(head.ends_with("Node difference: -4\n"));
}

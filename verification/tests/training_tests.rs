use labyrinth::generator::generate_maze;
use labyrinth::maze::Maze;
use labyrinth::solver::bfs;
use labyrinth::solver::search::Direction;
use labyrinth::training::example::{
    create_training_examples, direction_is_open, validate_position, TrainingExampleError,
};
use labyrinth::training::session::{
    checkpoint_maze_path, checkpoint_path, choose_checkpoint_slot, current_unix_seconds, history_order, newest_index,
    node_difference,
    first_maze_task, next_maze_task, refuse_zero_mazes, resume_training_for_mazes, MazeTask, solved_label, start_new_training_for_mazes, training_limit_reached, SlotState,
    StopReason, TrainingLimit, TrainingSession,
};
use labyrinth::training::teacher::{best_teacher, select_teacher, teacher_from_runs, valid_teacher_result, TeacherResult};

fn corridor() -> Maze {
    let mut maze = Maze::new(3, 1);
    for x in 0..2 {
        maze.cells[0][x].east = false;
        maze.cells[0][x + 1].west = false;
    }
    maze
}

#[test]
fn examples_follow_each_step_of_the_path() {
    let maze = corridor();
    let examples = create_training_examples(&maze, &[(0, 0), (1, 0), (2, 0)]).unwrap();
    assert_eq!(examples.len(), 2);
    assert_eq!(examples[0].position, (0, 0));
    assert_eq!(examples[0].target_direction, Direction::East);
    assert_eq!(examples[0].target_index(), 1);
    assert_eq!(examples[0].walls, [true, false, true, true]);
    assert_eq!(examples[0].visited_neighbors, [false, false, false, false]);
    assert_eq!(examples[1].position, (1, 0));
    assert_eq!(examples[1].walls, [true, false, true, false]);
    assert_eq!(examples[1].visited_neighbors, [false, false, false, true]);
    assert_eq!(examples[1].goal, (2, 0));
    assert_eq!(examples[1].dimensions, (3, 1));
}

#[test]
fn examples_from_a_path_that_doubles_back() {
    let maze = corridor();
    let examples = create_training_examples(&maze, &[(0, 0), (1, 0), (0, 0), (1, 0)]).unwrap();
    assert_eq!(examples.len(), 3);
    assert_eq!(examples[1].target_direction, Direction::West);
    assert_eq!(examples[1].target_index(), 3);
    assert_eq!(examples[2].visited_neighbors, [false, true, false, false]);
}

#[test]
fn short_path_is_refused() {
    let maze = corridor();
    assert!(matches!(create_training_examples(&maze, &[(0, 0)]), Err(TrainingExampleError::PathTooShort)));
    assert!(matches!(create_training_examples(&maze, &[]), Err(TrainingExampleError::PathTooShort)));
}

#[test]
fn positions_off_the_grid_are_refused() {
    let maze = corridor();
    assert!(matches!(
        create_training_examples(&maze, &[(5, 0), (0, 0)]),
        Err(TrainingExampleError::PositionOutsideMaze { position: (5, 0) })
    ));
    assert!(matches!(
        create_training_examples(&maze, &[(0, 0), (1, 0), (1, 1)]),
        Err(TrainingExampleError::PositionOutsideMaze { position: (1, 1) })
    ));
}

#[test]
fn jumps_are_refused() {
    let maze = corridor();
    assert!(matches!(
        create_training_examples(&maze, &[(0, 0), (2, 0)]),
        Err(TrainingExampleError::NonAdjacentPositions { from: (0, 0), to: (2, 0) })
    ));
}

#[test]
fn moves_through_walls_are_refused() {
    let maze = Maze::new(2, 2);
    assert!(matches!(
        create_training_examples(&maze, &[(0, 0), (0, 1)]),
        Err(TrainingExampleError::TeacherMovedThroughWall { from: (0, 0), to: (0, 1), direction: Direction::South })
    ));
}

#[test]
fn error_messages() {
    assert_eq!(
        TrainingExampleError::PathTooShort.message(),
        "teacher path must contain at least two positions"
    );
    assert_eq!(
        TrainingExampleError::PositionOutsideMaze { position: (5, 0) }.message(),
        "teacher path position (5, 0) is outside the maze"
    );
    assert_eq!(
        TrainingExampleError::NonAdjacentPositions { from: (0, 0), to: (2, 0) }.message(),
        "teacher path contains non-adjacent positions: (0, 0) to (2, 0)"
    );
    assert_eq!(
        TrainingExampleError::TeacherMovedThroughWall { from: (0, 0), to: (0, 1), direction: Direction::South }
            .message(),
        "teacher attempted to move through a wall from (0, 0) to (0, 1) heading South"
    );
}

#[test]
fn position_and_direction_checks() {
    let maze = corridor();
    assert!(validate_position(&maze, (2, 0)).is_ok());
    assert!(matches!(
        validate_position(&maze, (3, 0)),
        Err(TrainingExampleError::PositionOutsideMaze { position: (3, 0) })
    ));
    assert!(direction_is_open(&maze, (1, 0), Direction::East));
    assert!(direction_is_open(&maze, (1, 0), Direction::West));
    assert!(!direction_is_open(&maze, (1, 0), Direction::North));
    assert!(!direction_is_open(&maze, (2, 0), Direction::East));
}

#[test]
fn teacher_is_chosen_from_the_classical_solvers() {
    let maze = generate_maze(10, 10);
    let teacher = select_teacher(&maze).expect("generated mazes are solvable");
    assert!(["BFS", "DFS", "Random", "A*"].contains(&teacher.algorithm.as_str()));
    assert_eq!(teacher.path, bfs::solve(&maze).path.unwrap());
    assert_eq!(teacher.trace.len(), teacher.nodes_explored - 1);
    assert!(teacher.nodes_explored <= bfs::solve(&maze).stats.nodes_explored);
}

#[test]
fn no_teacher_for_unsolvable_maze() {
    let maze = Maze::new(3, 3);
    assert!(select_teacher(&maze).is_none());
}

fn candidate(name: &str, nodes: usize, nanos: u128) -> TeacherResult {
    TeacherResult { algorithm: name.to_string(), path: vec![(0, 0)], trace: Vec::new(), nodes_explored: nodes, duration_nanos: nanos }
}

#[test]
fn best_teacher_prefers_fewer_nodes_then_less_time_then_earlier() {
    let chosen = best_teacher(vec![candidate("BFS", 9, 5), candidate("DFS", 7, 9), candidate("A*", 7, 3)]).unwrap();
    assert_eq!(chosen.algorithm, "A*");
    let tie = best_teacher(vec![candidate("BFS", 4, 2), candidate("DFS", 4, 2)]).unwrap();
    assert_eq!(tie.algorithm, "BFS");
    assert!(best_teacher(Vec::new()).is_none());
}

#[test]
fn only_solved_runs_are_teachers() {
    let maze = Maze::new(2, 1);
    assert!(valid_teacher_result(bfs::solve(&maze)).is_none());
    let solved = valid_teacher_result(bfs::solve(&corridor())).unwrap();
    assert_eq!(solved.algorithm, "BFS");
    assert_eq!(solved.path, vec![(0, 0), (1, 0), (2, 0)]);
    assert_eq!(solved.nodes_explored, 3);
}

#[test]
fn new_session_needs_a_positive_maze_count() {
    assert_eq!(start_new_training_for_mazes(0).unwrap_err(), "Maze count must be greater than zero.");
    let session = start_new_training_for_mazes(4).unwrap();
    assert_eq!(session.limit, TrainingLimit::Mazes(4));
    assert_eq!(session.total_mazes_completed, 0);
}

#[test]
fn resumed_session_continues_from_the_newest_checkpoint() {
    assert_eq!(
        resume_training_for_mazes(0, Ok(Some(3))).unwrap_err(),
        "Maze count must be greater than zero."
    );
    assert_eq!(resume_training_for_mazes(5, Ok(None)).unwrap_err(), "No compatible checkpoint was found.");
    assert_eq!(
        resume_training_for_mazes(5, Err("disk error".to_string())).unwrap_err(),
        "Failed to load checkpoints: disk error"
    );
    let session = resume_training_for_mazes(5, Ok(Some(12))).unwrap();
    assert_eq!(session.total_mazes_completed, 12);
    assert_eq!(session.session_mazes_completed, 0);
    assert_eq!(session.limit, TrainingLimit::Mazes(5));
    assert_eq!(session.next_maze_number(), 13);
}

#[test]
fn session_stops_at_its_limit_or_after_failures() {
    let mut session = TrainingSession::new(0, TrainingLimit::Mazes(2));
    assert!(session.continues(0));
    session.record_success(1);
    assert!(session.continues(0));
    for _ in 0..10 {
        session.record_failure();
    }
    assert!(session.too_many_failures());
    assert!(!session.continues(0));
    assert_eq!(session.stop_reason(0), StopReason::TrainingFailure);
    session.record_success(2);
    assert_eq!(session.consecutive_failures, 0);
    assert!(!session.continues(0));
    assert_eq!(session.stop_reason(0), StopReason::MazeLimit);
    let timed = TrainingSession::new(7, TrainingLimit::Time(1_000));
    assert!(timed.continues(999));
    assert!(!timed.continues(1_000));
    assert_eq!(timed.stop_reason(1_000), StopReason::TimeLimit);
    assert!(training_limit_reached(TrainingLimit::Time(5), 0, 6));
    assert!(!training_limit_reached(TrainingLimit::Mazes(3), 2, u128::MAX));
}

#[test]
fn node_differences_and_labels() {
    assert_eq!(node_difference(10, 4), 6);
    assert_eq!(node_difference(4, 10), -6);
    assert_eq!(solved_label(true), "Solved");
    assert_eq!(solved_label(false), "Failed");
}

#[test]
fn checkpoint_slots_fill_the_first_gap() {
    assert_eq!(choose_checkpoint_slot(&[SlotState::Completed(5), SlotState::Missing, SlotState::Missing]), 2);
    assert_eq!(choose_checkpoint_slot(&[SlotState::Missing]), 1);
}

#[test]
fn checkpoint_slots_replace_the_oldest() {
    let states = [
        SlotState::Completed(9),
        SlotState::Completed(6),
        SlotState::Completed(7),
        SlotState::Completed(10),
        SlotState::Completed(8),
    ];
    assert_eq!(choose_checkpoint_slot(&states), 2);
    let tied = [SlotState::Completed(4), SlotState::Completed(3), SlotState::Completed(3)];
    assert_eq!(choose_checkpoint_slot(&tied), 2);
}

#[test]
fn checkpoint_slots_replace_an_unreadable_file() {
    let states = [SlotState::Completed(1), SlotState::Unreadable, SlotState::Completed(0)];
    assert_eq!(choose_checkpoint_slot(&states), 2);
}

#[test]
fn checkpoint_file_paths() {
    assert_eq!(checkpoint_path(3), "output/theseus/checkpoints/checkpoint_3.json");
    assert_eq!(checkpoint_maze_path(5), "output/theseus/checkpoints/checkpoint_5_maze.json");
}

#[test]
fn newest_checkpoint_is_the_first_with_most_mazes() {
    assert_eq!(newest_index(&[Some(2), None, Some(7), Some(7), Some(1)]), Some(2));
    assert_eq!(newest_index(&[None, None]), None);
    assert_eq!(newest_index(&[]), None);
}

#[test]
fn unix_seconds_are_after_2020() {
    assert!(current_unix_seconds() > 1_577_836_800);
}

#[test]
fn history_orders_by_mazes_then_reading_order() {
    assert_eq!(history_order(&[5, 2, 9, 2, 7]), vec![1, 3, 0, 4, 2]);
    assert_eq!(history_order(&[]), Vec::<usize>::new());
    assert_eq!(history_order(&[3, 3, 3]), vec![0, 1, 2]);
}

#[test]
fn zero_mazes_are_refused_before_anything_is_read() {
    assert_eq!(refuse_zero_mazes(0), Some("Maze count must be greater than zero.".to_string()));
    assert_eq!(refuse_zero_mazes(3), None);
}

#[test]
fn a_session_with_a_maze_limit_ends_within_its_budget() {
    let mut session = TrainingSession::new(0, TrainingLimit::Mazes(2));
    let mut steps = 0;
    let mut failing = true;
    while session.continues(0) {
        if failing {
            session.record_failure();
        } else {
            session.record_success(session.total_mazes_completed + 1);
        }
        failing = !failing;
        steps += 1;
    }
    assert_eq!(session.session_mazes_completed, 2);
    assert!(steps <= 3 * 10);
}

#[test]
fn theseus_is_evaluated_before_it_learns() {
    let mut tasks = vec![first_maze_task()];
    while let Some(next) = next_maze_task(*tasks.last().unwrap()) {
        tasks.push(next);
    }
    assert_eq!(
        tasks,
        vec![
            MazeTask::Generate,
            MazeTask::Evaluate,
            MazeTask::SelectTeacher,
            MazeTask::BuildExamples,
            MazeTask::Learn,
            MazeTask::RecordCheckpoint
        ]
    );
}

#[test]
fn teacher_from_runs_takes_the_first_best_solved_run() {
    let maze = corridor();
    let unsolved = bfs::solve(&Maze::new(3, 1));
    assert!(teacher_from_runs(vec![unsolved]).is_none());
    let first = bfs::solve(&maze);
    let second = bfs::solve(&maze);
    let teacher = teacher_from_runs(vec![bfs::solve(&Maze::new(3, 1)), first, second]).unwrap();
    assert_eq!(teacher.algorithm, "BFS");
    assert_eq!(teacher.path, vec![(0, 0), (1, 0), (2, 0)]);
    assert_eq!(teacher.nodes_explored, 3);
}

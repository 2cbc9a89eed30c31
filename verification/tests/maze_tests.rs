use labyrinth::config::{difficulty_for_roll, difficulty_from_size, random_training_difficulty, Difficulty};
use labyrinth::generator::generate_maze;
use labyrinth::maze::{Cell, Maze};
use labyrinth::validator::{check_maze, validate_maze, ValidationError};

fn open_east(maze: &mut Maze, x: usize, y: usize) {
    maze.cells[y][x].east = false;
    maze.cells[y][x + 1].west = false;
}

fn open_south(maze: &mut Maze, x: usize, y: usize) {
    maze.cells[y][x].south = false;
    maze.cells[y + 1][x].north = false;
}

#[test]
fn new_cell_has_all_walls_and_is_unvisited() {
    let cell = Cell::new();
    assert!(cell.north && cell.east && cell.south && cell.west);
    assert!(!cell.visited);
}

#[test]
fn new_maze_has_requested_shape() {
    let maze = Maze::new(4, 3);
    assert_eq!(maze.width, 4);
    assert_eq!(maze.height, 3);
    assert_eq!(maze.cells.len(), 3);
    for row in &maze.cells {
        assert_eq!(row.len(), 4);
        for cell in row {
            assert_eq!(*cell, Cell::new());
        }
    }
}

#[test]
fn neighbors_follow_open_sides_in_compass_order() {
    let mut maze = Maze::new(3, 3);
    open_east(&mut maze, 0, 1);
    open_east(&mut maze, 1, 1);
    open_south(&mut maze, 1, 0);
    open_south(&mut maze, 1, 1);
    assert_eq!(maze.neighbors((1, 1)), vec![(1, 0), (2, 1), (1, 2), (0, 1)]);
    assert_eq!(maze.neighbors((0, 0)), Vec::<(usize, usize)>::new());
    assert_eq!(maze.neighbors((2, 1)), vec![(1, 1)]);
}

#[test]
fn neighbors_ignore_open_sides_on_the_border() {
    let mut maze = Maze::new(2, 2);
    maze.cells[0][0].west = false;
    maze.cells[0][0].north = false;
    assert_eq!(maze.neighbors((0, 0)), Vec::<(usize, usize)>::new());
}

#[test]
fn generated_maze_is_valid_with_open_corners() {
    let maze = generate_maze(12, 7);
    assert_eq!(maze.width, 12);
    assert_eq!(maze.height, 7);
    assert_eq!(validate_maze(&maze), Ok(()));
    assert!(!maze.cells[0][0].west);
    assert!(!maze.cells[6][11].east);
    for row in &maze.cells {
        for cell in row {
            assert!(cell.visited);
        }
    }
}

#[test]
fn generated_single_cell_maze_is_valid() {
    let maze = generate_maze(1, 1);
    assert_eq!(validate_maze(&maze), Ok(()));
}

#[test]
fn generated_maze_has_one_passage_fewer_than_cells() {
    let maze = generate_maze(9, 6);
    let mut passages = 0;
    for y in 0..maze.height {
        for x in 0..maze.width {
            if x + 1 < maze.width && !maze.cells[y][x].east {
                passages += 1;
            }
            if y + 1 < maze.height && !maze.cells[y][x].south {
                passages += 1;
            }
        }
    }
    assert_eq!(passages, 9 * 6 - 1);
}

#[test]
fn validation_rejects_empty_dimensions() {
    let maze = Maze::new(0, 3);
    assert_eq!(check_maze(&maze), Err(ValidationError::EmptyDimensions));
}

#[test]
fn validation_rejects_missing_rows() {
    let mut maze = Maze::new(2, 3);
    maze.cells.pop();
    assert_eq!(check_maze(&maze), Err(ValidationError::HeightMismatch { expected: 3, found: 2 }));
}

#[test]
fn validation_rejects_short_row() {
    let mut maze = Maze::new(3, 3);
    maze.cells[1].pop();
    assert_eq!(
        check_maze(&maze),
        Err(ValidationError::WidthMismatch { row: 1, expected: 3, found: 2 })
    );
}

#[test]
fn validation_rejects_east_west_mismatch() {
    let mut maze = Maze::new(3, 2);
    maze.cells[1][1].east = false;
    assert_eq!(check_maze(&maze), Err(ValidationError::EastWestMismatch { x: 1, y: 1 }));
}

#[test]
fn validation_rejects_south_north_mismatch() {
    let mut maze = Maze::new(2, 3);
    maze.cells[2][0].north = false;
    assert_eq!(check_maze(&maze), Err(ValidationError::SouthNorthMismatch { x: 0, y: 1 }));
}

#[test]
fn validation_rejects_disconnected_maze() {
    let mut maze = Maze::new(2, 2);
    open_east(&mut maze, 0, 0);
    assert_eq!(check_maze(&maze), Err(ValidationError::NotConnected { visited: 2, expected: 4 }));
}

#[test]
fn validation_rejects_maze_with_a_loop() {
    let mut maze = Maze::new(2, 2);
    open_east(&mut maze, 0, 0);
    open_east(&mut maze, 0, 1);
    open_south(&mut maze, 0, 0);
    open_south(&mut maze, 1, 0);
    assert_eq!(check_maze(&maze), Err(ValidationError::NotPerfect { expected: 3, found: 4 }));
}

#[test]
fn validation_accepts_hand_built_perfect_maze() {
    let mut maze = Maze::new(2, 2);
    open_east(&mut maze, 0, 0);
    open_south(&mut maze, 0, 0);
    open_east(&mut maze, 0, 1);
    assert_eq!(validate_maze(&maze), Ok(()));
}

#[test]
fn validation_messages_read_as_sentences() {
    assert_eq!(
        ValidationError::EmptyDimensions.message(),
        "Maze width and height must be greater than 0."
    );
    assert_eq!(
        ValidationError::HeightMismatch { expected: 3, found: 2 }.message(),
        "Maze height mismatch: expected 3, found 2 rows."
    );
    assert_eq!(
        ValidationError::WidthMismatch { row: 1, expected: 3, found: 2 }.message(),
        "Maze width mismatch on row 1: expected 3, found 2 cells."
    );
    assert_eq!(
        ValidationError::EastWestMismatch { x: 1, y: 1 }.message(),
        "Wall mismatch between (1, 1) east and (2, 1) west."
    );
    assert_eq!(
        ValidationError::SouthNorthMismatch { x: 0, y: 1 }.message(),
        "Wall mismatch between (0, 1) south and (0, 2) north."
    );
    assert_eq!(
        ValidationError::NotConnected { visited: 2, expected: 4 }.message(),
        "Maze is not fully connected: visited 2 of 4 cells."
    );
    assert_eq!(ValidationError::ExitUnreachable.message(), "Exit is not reachable from the start.");
    assert_eq!(
        ValidationError::NotPerfect { expected: 3, found: 4 }.message(),
        "Maze is not perfect: expected 3 passages, found 4."
    );
}

#[test]
fn random_sizes_stay_in_difficulty_ranges() {
    for _ in 0..200 {
        let easy = Difficulty::Easy.random_size();
        assert!((20..=49).contains(&easy));
        let medium = Difficulty::Medium.random_size();
        assert!((50..=99).contains(&medium));
        let hard = Difficulty::Hard.random_size();
        assert!((100..=249).contains(&hard));
        let labyrinthian = Difficulty::Labyrinthian.random_size();
        assert!((250..=1000).contains(&labyrinthian));
    }
}

#[test]
fn difficulty_labels() {
    assert_eq!(Difficulty::Easy.label(), "Easy");
    assert_eq!(Difficulty::Medium.label(), "Medium");
    assert_eq!(Difficulty::Hard.label(), "Hard");
    assert_eq!(Difficulty::Labyrinthian.label(), "Labyrinthian");
}

#[test]
fn difficulty_from_size_uses_range_bounds() {
    assert_eq!(difficulty_from_size(20), "Easy");
    assert_eq!(difficulty_from_size(49), "Easy");
    assert_eq!(difficulty_from_size(50), "Medium");
    assert_eq!(difficulty_from_size(99), "Medium");
    assert_eq!(difficulty_from_size(100), "Hard");
    assert_eq!(difficulty_from_size(249), "Hard");
    assert_eq!(difficulty_from_size(250), "Labyrinthian");
    assert_eq!(difficulty_from_size(19), "Labyrinthian");
}

#[test]
fn random_size_is_named_by_its_difficulty() {
    for difficulty in [Difficulty::Easy, Difficulty::Medium, Difficulty::Hard, Difficulty::Labyrinthian] {
        let size = difficulty.random_size() as u64;
        assert_eq!(difficulty_from_size(size), difficulty.label());
    }
}

#[test]
fn training_difficulty_rolls() {
    assert_eq!(difficulty_for_roll(0), Difficulty::Easy);
    assert_eq!(difficulty_for_roll(9), Difficulty::Easy);
    assert_eq!(difficulty_for_roll(10), Difficulty::Medium);
    assert_eq!(difficulty_for_roll(29), Difficulty::Medium);
    assert_eq!(difficulty_for_roll(30), Difficulty::Hard);
    assert_eq!(difficulty_for_roll(59), Difficulty::Hard);
    assert_eq!(difficulty_for_roll(60), Difficulty::Labyrinthian);
    assert_eq!(difficulty_for_roll(99), Difficulty::Labyrinthian);
    let drawn = random_training_difficulty();
    assert!(matches!(
        drawn,
        Difficulty::Easy | Difficulty::Medium | Difficulty::Hard | Difficulty::Labyrinthian
    ));
}

#[test]
fn generated_maze_keeps_its_border_walls_but_the_doors() {
    let maze = generate_maze(11, 8);
    for y in 0..maze.height {
        for x in 0..maze.width {
            let cell = maze.cells[y][x];
            if y == 0 {
                assert!(cell.north);
            }
            if y == maze.height - 1 {
                assert!(cell.south);
            }
            if x == 0 && y != 0 {
                assert!(cell.west);
            }
            if x == maze.width - 1 && y != maze.height - 1 {
                assert!(cell.east);
            }
        }
    }
}

#[test]
fn validation_reports_the_sentence_of_the_first_failure() {
    assert_eq!(validate_maze(&Maze::new(0, 3)), Err("Maze width and height must be greater than 0.".to_string()));
    let mut maze = Maze::new(2, 2);
    maze.cells[1][1].west = false;
    assert_eq!(validate_maze(&maze), Err("Wall mismatch between (0, 1) east and (1, 1) west.".to_string()));
    let mut split = Maze::new(2, 2);
    open_east(&mut split, 0, 0);
    assert_eq!(validate_maze(&split), Err("Maze is not fully connected: visited 2 of 4 cells.".to_string()));
}

#[test]
fn neighbors_answer_for_rows_longer_than_the_width() {
    let mut maze = Maze::new(2, 2);
    maze.cells[0].push(Cell::new());
    open_east(&mut maze, 0, 0);
    assert_eq!(maze.neighbors((0, 0)), vec![(1, 0)]);
    assert_eq!(maze.neighbors((2, 0)), Vec::<(usize, usize)>::new());
}

#[test]
fn generating_the_largest_labyrinthian_maze_does_not_exhaust_the_stack() {
    let maze = generate_maze(1000, 1000);
    assert_eq!(maze.cells.len(), 1000);
    let mut passages: usize = 0;
    for y in 0..maze.height {
        assert_eq!(maze.cells[y].len(), 1000);
        for x in 0..maze.width {
            let cell = maze.cells[y][x];
            assert!(cell.visited);
            if x + 1 < maze.width && !cell.east {
                passages += 1;
            }
            if y + 1 < maze.height && !cell.south {
                passages += 1;
            }
        }
    }
    assert_eq!(passages, 1000 * 1000 - 1);
}

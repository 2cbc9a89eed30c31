use labyrinth::maze::Maze;
use labyrinth::render::{
    ascii_art, comparison_svg_body, draw_false_paths, draw_maze_walls, draw_solution_path, export_solution_svg_astar,
    export_solution_svg_bfs, export_solution_svg_dfs, export_solution_svg_random, maze_svg, solution_svg,
};
use labyrinth::solver::search::{Direction, SearchStep};
use labyrinth::command::{parse_training_limit, LimitArgument};
use labyrinth::text::{decimal_string, format_seconds, push_signed_decimal};

fn corridor() -> Maze {
    let mut maze = Maze::new(2, 1);
    maze.cells[0][0].east = false;
    maze.cells[0][1].west = false;
    maze
}

#[test]
fn maze_svg_of_a_single_closed_cell() {
    let maze = Maze::new(1, 1);
    assert_eq!(
        maze_svg(&maze),
        "<svg xmlns=\"http://www.w3.org/2000/svg\" width=\"20\" height=\"20\" viewBox=\"0 0 20 20\">\
<rect width=\"100%\" height=\"100%\" fill=\"white\"/>\
<g stroke=\"black\" stroke-width=\"2\" fill=\"none\" stroke-linecap=\"square\">\
<line x1=\"0\" y1=\"0\" x2=\"20\" y2=\"0\"/>\
<line x1=\"20\" y1=\"0\" x2=\"20\" y2=\"20\"/>\
<line x1=\"0\" y1=\"20\" x2=\"20\" y2=\"20\"/>\
<line x1=\"0\" y1=\"0\" x2=\"0\" y2=\"20\"/>\
</g></svg>"
    );
}

#[test]
fn maze_svg_skips_open_walls() {
    let maze = corridor();
    let svg = maze_svg(&maze);
    assert!(svg.contains("width=\"40\" height=\"20\" viewBox=\"0 0 40 20\""));
    assert!(!svg.contains("<line x1=\"20\" y1=\"0\" x2=\"20\" y2=\"20\"/>"));
    assert_eq!(svg.matches("<line").count(), 6);
}

#[test]
fn ascii_art_of_a_corridor() {
    assert_eq!(ascii_art(&corridor()), "+---+---+\n|       |\n+---+---+\n");
}

#[test]
fn ascii_art_shows_open_sides() {
    let mut maze = Maze::new(2, 2);
    maze.cells[0][0].west = false;
    maze.cells[0][0].south = false;
    maze.cells[1][0].north = false;
    maze.cells[1][1].east = false;
    assert_eq!(ascii_art(&maze), "+---+---+\n    |   |\n+   +---+\n|   |    \n+---+---+\n");
}

#[test]
fn ascii_art_of_an_empty_maze() {
    assert_eq!(ascii_art(&Maze::new(0, 0)), "+\n");
}

#[test]
fn false_paths_skip_solution_moves() {
    let trace = vec![
        SearchStep { from: (0, 0), to: (1, 0), direction: Direction::East, visit_order: 2, on_solution_path: true },
        SearchStep { from: (0, 0), to: (0, 1), direction: Direction::South, visit_order: 3, on_solution_path: false },
    ];
    let mut svg = String::new();
    draw_false_paths(&mut svg, &trace, "orange");
    assert_eq!(
        svg,
        "<g stroke=\"orange\"\n        stroke-width=\"3\"\n        fill=\"none\"\n        stroke-linecap=\"round\"\n        stroke-linejoin=\"round\"\n        opacity=\"0.75\"><line x1=\"10\" y1=\"10\" x2=\"10\" y2=\"30\"/></g>"
    );
}

#[test]
fn solution_path_is_a_polyline_through_centres() {
    let mut svg = String::new();
    draw_solution_path(&mut svg, &[(0, 0), (1, 0)]);
    assert_eq!(
        svg,
        "<polyline points=\"10,10 30,10 \" fill=\"none\"\n        stroke=\"red\"\n        stroke-width=\"4\"\n        stroke-linecap=\"round\"\n        stroke-linejoin=\"round\"/>"
    );
    let mut empty = String::from("x");
    draw_solution_path(&mut empty, &[]);
    assert_eq!(empty, "x");
}

#[test]
fn maze_walls_group() {
    let mut svg = String::new();
    draw_maze_walls(&mut svg, &corridor());
    assert!(svg.starts_with("<g stroke=\"black\"\n        stroke-width=\"2\"\n        fill=\"none\"\n        stroke-linecap=\"square\">"));
    assert!(svg.ends_with("</g>"));
    assert_eq!(svg.matches("<line").count(), 6);
}

#[test]
fn solution_svg_layers_paths_below_walls() {
    let maze = corridor();
    let svg = solution_svg(&maze, &[], &[(0, 0), (1, 0)], "purple");
    assert!(svg.starts_with("<svg xmlns=\"http://www.w3.org/2000/svg\"\n        width=\"40\"\n        height=\"20\"\n        viewBox=\"0 0 40 20\"><rect width=\"100%\" height=\"100%\" fill=\"white\"/><g stroke=\"purple\""));
    let path_at = svg.find("<polyline").unwrap();
    let walls_at = svg.find("<g stroke=\"black\"").unwrap();
    assert!(path_at < walls_at);
    assert!(svg.ends_with("</g></svg>"));
}

#[test]
fn solver_svg_files_have_their_paths_and_colors() {
    let maze = corridor();
    let path = [(0, 0), (1, 0)];
    let bfs = export_solution_svg_bfs(&maze, &[], &path);
    assert_eq!(bfs.path, "output/solved_maze_bfs.svg");
    assert_eq!(bfs.contents, solution_svg(&maze, &[], &path, "orange"));
    let dfs = export_solution_svg_dfs(&maze, &[], &path);
    assert_eq!(dfs.path, "output/solved_maze_dfs.svg");
    assert_eq!(dfs.contents, solution_svg(&maze, &[], &path, "purple"));
    let astar = export_solution_svg_astar(&maze, &[], &path);
    assert_eq!(astar.path, "output/solved_maze_astar.svg");
    assert_eq!(astar.contents, solution_svg(&maze, &[], &path, "darkcyan"));
    let random = export_solution_svg_random(&maze, &[], &path);
    assert_eq!(random.path, "output/solved_maze_random.svg");
    assert_eq!(random.contents, solution_svg(&maze, &[], &path, "green"));
}

#[test]
fn comparison_draws_traces_in_fixed_order() {
    let maze = corridor();
    let step = SearchStep { from: (0, 0), to: (1, 0), direction: Direction::East, visit_order: 2, on_solution_path: false };
    let body = comparison_svg_body(&maze, &[step], &[step], &[step], &[step], &[(0, 0), (1, 0)]);
    let green = body.find("stroke=\"green\"").unwrap();
    let purple = body.find("stroke=\"purple\"").unwrap();
    let orange = body.find("stroke=\"orange\"").unwrap();
    let blue = body.find("stroke=\"royalblue\"").unwrap();
    assert!(green < purple && purple < orange && orange < blue);
    assert!(body.ends_with("</g>"));
}

#[test]
fn decimal_numerals() {
    assert_eq!(decimal_string(0), "0");
    assert_eq!(decimal_string(7), "7");
    assert_eq!(decimal_string(1200), "1200");
    assert_eq!(decimal_string(u128::MAX), u128::MAX.to_string());
}

#[test]
fn signed_numerals() {
    let mut text = String::new();
    push_signed_decimal(&mut text, 0);
    push_signed_decimal(&mut text, -42);
    push_signed_decimal(&mut text, 17);
    assert_eq!(text, "+0-42+17");
    let mut extreme = String::new();
    push_signed_decimal(&mut extreme, i128::MIN);
    assert_eq!(extreme, i128::MIN.to_string());
}

#[test]
fn seconds_as_clock_time() {
    assert_eq!(format_seconds(0), "00:00:00");
    assert_eq!(format_seconds(3725), "01:02:05");
    assert_eq!(format_seconds(86399), "23:59:59");
    assert_eq!(format_seconds(360000), "100:00:00");
}

fn maze_count(text: &str) -> Option<u64> {
    match parse_training_limit(&["--mazes".to_string(), text.to_string()]) {
        Ok(LimitArgument::Mazes(count)) => Some(count),
        Ok(LimitArgument::Hours(_)) => panic!("a maze count was read as hours"),
        Err(message) => {
            assert_eq!(message, "Maze count must be a whole number.");
            None
        }
    }
}

#[test]
fn unsigned_parsing_follows_std() {
    assert_eq!(maze_count("42"), Some(42));
    assert_eq!(maze_count("+42"), Some(42));
    assert_eq!(maze_count("007"), Some(7));
    assert_eq!(maze_count(""), None);
    assert_eq!(maze_count("+"), None);
    assert_eq!(maze_count("-1"), None);
    assert_eq!(maze_count(" 1"), None);
    assert_eq!(maze_count("12a"), None);
    assert_eq!(maze_count("18446744073709551616"), None);
    assert_eq!(maze_count("18446744073709551615"), Some(u64::MAX));
}

#[test]
fn comparison_shows_the_first_solution_found() {
    let theseus = vec![(0, 0), (1, 0)];
    let breadth = vec![(0, 0), (0, 1), (1, 1), (1, 0)];
    assert_eq!(
        labyrinth::render::first_solution(vec![None, Some(breadth.clone()), Some(theseus.clone())]),
        Some(breadth)
    );
    assert_eq!(labyrinth::render::first_solution(vec![Some(theseus.clone()), None]), Some(theseus));
    assert_eq!(labyrinth::render::first_solution(vec![None, None]), None);
}

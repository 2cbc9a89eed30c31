use labyrinth::generator::generate_maze;
use labyrinth::maze::Maze;
use labyrinth::validator::validate_maze;
use labyrinth::solver::astar::heuristic;
use labyrinth::solver::learned::{direction_index, LearnedSearch, LearnedStep};
use labyrinth::solver::random::{shuffle, SimpleRng, LCG_MULTIPLIER};
use labyrinth::solver::search::{direction_between, mark_solution_path, Direction, SearchStep, SolverOutput};
use labyrinth::solver::{astar, bfs, dfs, random};

fn open_east(maze: &mut Maze, x: usize, y: usize) {
    maze.cells[y][x].east = false;
    maze.cells[y][x + 1].west = false;
}

fn open_south(maze: &mut Maze, x: usize, y: usize) {
    maze.cells[y][x].south = false;
    maze.cells[y + 1][x].north = false;
}

/// A 3x3 maze whose single corridor snakes through every cell.
fn snake() -> Maze {
    let mut maze = Maze::new(3, 3);
    open_east(&mut maze, 0, 0);
    open_east(&mut maze, 1, 0);
    open_south(&mut maze, 2, 0);
    open_east(&mut maze, 1, 1);
    open_east(&mut maze, 0, 1);
    open_south(&mut maze, 0, 1);
    open_east(&mut maze, 0, 2);
    open_east(&mut maze, 1, 2);
    maze
}

fn snake_path() -> Vec<(usize, usize)> {
    vec![(0, 0), (1, 0), (2, 0), (2, 1), (1, 1), (0, 1), (0, 2), (1, 2), (2, 2)]
}

/// A 2x2 maze: the corner opens east to a dead end and south to the way out.
fn fork() -> Maze {
    let mut maze = Maze::new(2, 2);
    open_east(&mut maze, 0, 0);
    open_south(&mut maze, 0, 0);
    open_east(&mut maze, 0, 1);
    maze
}

fn check_output(output: &SolverOutput, maze: &Maze, name: &str) {
    assert_eq!(output.stats.algorithm, name);
    assert!(output.stats.solved);
    let path = output.path.as_ref().expect("a path");
    assert_eq!(path[0], (0, 0));
    assert_eq!(*path.last().unwrap(), (maze.width - 1, maze.height - 1));
    assert_eq!(output.stats.path_length, path.len());
    assert!(output.stats.nodes_explored >= 1);
    assert_eq!(output.trace.len(), output.stats.nodes_explored - 1);
    for (index, step) in output.trace.iter().enumerate() {
        assert_eq!(step.visit_order, index + 2);
        assert_eq!(direction_between(step.from, step.to), Some(step.direction));
        let on_path = path.windows(2).any(|pair| pair[0] == step.from && pair[1] == step.to);
        assert_eq!(step.on_solution_path, on_path);
    }
}

#[test]
fn direction_between_adjacent_positions() {
    assert_eq!(direction_between((1, 1), (1, 0)), Some(Direction::North));
    assert_eq!(direction_between((1, 1), (2, 1)), Some(Direction::East));
    assert_eq!(direction_between((1, 1), (1, 2)), Some(Direction::South));
    assert_eq!(direction_between((1, 1), (0, 1)), Some(Direction::West));
}

#[test]
fn direction_between_rejects_other_positions() {
    assert_eq!(direction_between((1, 1), (1, 1)), None);
    assert_eq!(direction_between((1, 1), (2, 2)), None);
    assert_eq!(direction_between((0, 0), (2, 0)), None);
    assert_eq!(direction_between((0, 0), (usize::MAX, 0)), None);
}

#[test]
fn mark_solution_path_flags_exactly_the_path_moves() {
    let step = |from: (usize, usize), to: (usize, usize), order: usize| SearchStep {
        from,
        to,
        direction: direction_between(from, to).unwrap(),
        visit_order: order,
        on_solution_path: true,
    };
    let mut trace = vec![step((0, 0), (1, 0), 2), step((1, 0), (1, 1), 3), step((0, 0), (0, 1), 4)];
    mark_solution_path(&mut trace, &[(0, 0), (0, 1), (1, 1)]);
    assert!(!trace[0].on_solution_path);
    assert!(!trace[1].on_solution_path);
    assert!(trace[2].on_solution_path);
    assert_eq!(trace[2].visit_order, 4);
}

#[test]
fn mark_solution_path_with_empty_path_clears_flags() {
    let mut trace = vec![SearchStep {
        from: (0, 0),
        to: (1, 0),
        direction: Direction::East,
        visit_order: 2,
        on_solution_path: true,
    }];
    mark_solution_path(&mut trace, &[]);
    assert!(!trace[0].on_solution_path);
}

#[test]
fn bfs_solves_the_snake() {
    let maze = snake();
    let output = bfs::solve(&maze);
    check_output(&output, &maze, "BFS");
    assert_eq!(output.path.unwrap(), snake_path());
    assert_eq!(output.stats.nodes_explored, 9);
}

#[test]
fn dfs_solves_the_snake() {
    let maze = snake();
    let output = dfs::solve(&maze);
    check_output(&output, &maze, "DFS");
    assert_eq!(output.path.unwrap(), snake_path());
}

#[test]
fn astar_solves_the_snake() {
    let maze = snake();
    let output = astar::solve(&maze);
    check_output(&output, &maze, "A*");
    assert_eq!(output.path.unwrap(), snake_path());
}

#[test]
fn random_solves_the_snake() {
    let maze = snake();
    let output = random::solve(&maze);
    check_output(&output, &maze, "Random");
    assert_eq!(output.path.unwrap(), snake_path());
}

#[test]
fn bfs_explores_fork_breadth_first() {
    let maze = fork();
    let output = bfs::solve(&maze);
    check_output(&output, &maze, "BFS");
    assert_eq!(output.path.unwrap(), vec![(0, 0), (0, 1), (1, 1)]);
    assert_eq!(output.stats.nodes_explored, 4);
}

#[test]
fn dfs_explores_last_pushed_neighbor_first() {
    let maze = fork();
    let output = dfs::solve(&maze);
    check_output(&output, &maze, "DFS");
    assert_eq!(output.path.unwrap(), vec![(0, 0), (0, 1), (1, 1)]);
    assert_eq!(output.stats.nodes_explored, 3);
}

#[test]
fn astar_prefers_lower_estimates() {
    let maze = fork();
    let output = astar::solve(&maze);
    check_output(&output, &maze, "A*");
    assert_eq!(output.path.unwrap(), vec![(0, 0), (0, 1), (1, 1)]);
}

#[test]
fn solvers_report_unreachable_exit() {
    let mut maze = Maze::new(3, 2);
    open_east(&mut maze, 0, 0);
    let outputs = [bfs::solve(&maze), dfs::solve(&maze), random::solve(&maze), astar::solve(&maze)];
    for output in outputs {
        assert!(!output.stats.solved);
        assert!(output.path.is_none());
        assert_eq!(output.stats.path_length, 0);
        assert_eq!(output.stats.nodes_explored, 2);
        assert_eq!(output.trace.len(), 1);
        assert!(!output.trace[0].on_solution_path);
    }
}

#[test]
fn single_cell_maze_is_solved_at_once() {
    let maze = Maze::new(1, 1);
    for output in [bfs::solve(&maze), dfs::solve(&maze), random::solve(&maze), astar::solve(&maze)] {
        assert!(output.stats.solved);
        assert_eq!(output.path.unwrap(), vec![(0, 0)]);
        assert_eq!(output.stats.nodes_explored, 1);
        assert!(output.trace.is_empty());
    }
}

#[test]
fn all_solvers_agree_on_generated_mazes() {
    for (width, height) in [(5, 5), (17, 9), (30, 2)] {
        let maze = generate_maze(width, height);
        let expected = bfs::solve(&maze).path.expect("generated mazes are solvable");
        assert_eq!(dfs::solve(&maze).path.unwrap(), expected);
        assert_eq!(random::solve(&maze).path.unwrap(), expected);
        assert_eq!(astar::solve(&maze).path.unwrap(), expected);
    }
}

#[test]
fn all_solvers_agree_on_a_validated_comb() {
    let mut maze = Maze::new(3, 3);
    open_east(&mut maze, 0, 0);
    open_east(&mut maze, 1, 0);
    for x in 0..3 {
        open_south(&mut maze, x, 0);
        open_south(&mut maze, x, 1);
    }
    assert_eq!(validate_maze(&maze), Ok(()));
    let expected = vec![(0, 0), (1, 0), (2, 0), (2, 1), (2, 2)];
    for output in [bfs::solve(&maze), dfs::solve(&maze), random::solve(&maze), astar::solve(&maze)] {
        assert_eq!(output.path.unwrap(), expected);
    }
}

#[test]
fn solvers_explore_from_explored_cells_and_stop_at_the_exit() {
    let maze = generate_maze(12, 7);
    let learned = run_learned(&maze, |n| (0..n).rev().collect());
    for output in [bfs::solve(&maze), dfs::solve(&maze), random::solve(&maze), astar::solve(&maze), learned] {
        let mut explored = vec![(0, 0)];
        for step in &output.trace {
            assert!(explored.contains(&step.from));
            assert!(!explored.contains(&step.to));
            explored.push(step.to);
        }
        assert_eq!(*explored.last().unwrap(), (11, 6));
        assert_eq!(explored.len(), output.stats.nodes_explored);
        let path = output.path.as_ref().unwrap();
        for pair in path.windows(2) {
            assert!(output.trace.iter().any(|step| step.from == pair[0] && step.to == pair[1]));
        }
    }
}

fn distances(maze: &Maze) -> Vec<Vec<usize>> {
    let mut dist = vec![vec![usize::MAX; maze.width]; maze.height];
    dist[0][0] = 0;
    let mut queue = std::collections::VecDeque::from(vec![(0usize, 0usize)]);
    while let Some((x, y)) = queue.pop_front() {
        for (nx, ny) in maze.neighbors((x, y)) {
            if dist[ny][nx] == usize::MAX {
                dist[ny][nx] = dist[y][x] + 1;
                queue.push_back((nx, ny));
            }
        }
    }
    dist
}

#[test]
fn bfs_explores_cells_in_order_of_distance() {
    let mut maze = generate_maze(9, 9);
    open_east(&mut maze, 3, 3);
    open_south(&mut maze, 5, 2);
    let dist = distances(&maze);
    let output = bfs::solve(&maze);
    let mut last = 0;
    for step in &output.trace {
        let d = dist[step.to.1][step.to.0];
        assert!(last <= d);
        last = d;
    }
}

fn compass_number(direction: Direction) -> usize {
    match direction {
        Direction::North => 0,
        Direction::East => 1,
        Direction::South => 2,
        Direction::West => 3,
    }
}

fn reached_order_choice(maze: &Maze, explored: &[(usize, usize)], j: usize, last: bool) -> (usize, usize) {
    let mut best: Option<((usize, usize), (usize, usize))> = None;
    for y in 0..maze.height {
        for x in 0..maze.width {
            let c = (x, y);
            if explored[..j].contains(&c) {
                continue;
            }
            let finder = (0..j).find(|&i| maze.neighbors(explored[i]).contains(&c));
            if let Some(i) = finder {
                let key = (i, compass_number(direction_between(explored[i], c).unwrap()));
                let better = match best {
                    None => true,
                    Some((k, _)) => if last { key > k } else { key < k },
                };
                if better {
                    best = Some((key, c));
                }
            }
        }
    }
    best.unwrap().1
}

fn explored_cells(output: &SolverOutput) -> Vec<(usize, usize)> {
    let mut explored: Vec<(usize, usize)> = vec![(0, 0)];
    explored.extend(output.trace.iter().map(|step| step.to));
    explored
}

#[test]
fn dfs_explores_the_waiting_cell_reached_last() {
    let mut maze = generate_maze(10, 8);
    open_east(&mut maze, 4, 4);
    open_south(&mut maze, 2, 5);
    let explored = explored_cells(&dfs::solve(&maze));
    for j in 1..explored.len() {
        assert_eq!(reached_order_choice(&maze, &explored, j, true), explored[j]);
    }
}

#[test]
fn random_search_explores_from_the_latest_cell_with_waiting_neighbours() {
    let mut maze = generate_maze(10, 8);
    open_east(&mut maze, 4, 4);
    open_south(&mut maze, 2, 5);
    let explored = explored_cells(&random::solve(&maze));
    for j in 1..explored.len() {
        let finder = |c: (usize, usize)| (0..j).find(|&i| maze.neighbors(explored[i]).contains(&c));
        let chosen = finder(explored[j]).unwrap();
        for y in 0..maze.height {
            for x in 0..maze.width {
                let c = (x, y);
                if !explored[..j].contains(&c) {
                    if let Some(i) = finder(c) {
                        assert!(i <= chosen);
                    }
                }
            }
        }
    }
}

#[test]
fn each_cell_is_reached_from_the_first_explored_cell_next_to_it() {
    let mut maze = generate_maze(9, 7);
    open_east(&mut maze, 3, 3);
    open_south(&mut maze, 5, 2);
    for output in [bfs::solve(&maze), dfs::solve(&maze), random::solve(&maze)] {
        let explored = explored_cells(&output);
        for j in 1..explored.len() {
            let first = (0..j).find(|&i| maze.neighbors(explored[i]).contains(&explored[j])).unwrap();
            assert_eq!(output.trace[j - 1].from, explored[first]);
        }
    }
}

#[test]
fn bfs_explores_the_waiting_cell_reached_first() {
    let mut maze = generate_maze(10, 8);
    open_east(&mut maze, 4, 4);
    open_south(&mut maze, 2, 5);
    let explored = explored_cells(&bfs::solve(&maze));
    for j in 1..explored.len() {
        assert_eq!(reached_order_choice(&maze, &explored, j, false), explored[j]);
    }
}

#[test]
fn astar_finds_a_shortest_path_exploring_by_estimate() {
    let mut maze = generate_maze(11, 9);
    open_east(&mut maze, 4, 4);
    open_south(&mut maze, 6, 2);
    open_east(&mut maze, 1, 7);
    let dist = distances(&maze);
    let output = astar::solve(&maze);
    let path = output.path.clone().unwrap();
    assert_eq!(path.len(), dist[8][10] + 1);
    let explored = explored_cells(&output);
    let mut last = 0;
    for &(x, y) in &explored[..explored.len() - 1] {
        let estimate = dist[y][x] + heuristic((x, y), (10, 8));
        assert!(last <= estimate);
        last = estimate;
    }
    let mut seen = explored.clone();
    seen.sort();
    seen.dedup();
    assert_eq!(seen.len(), explored.len());
}

#[test]
fn unsolvable_search_explores_every_reachable_cell() {
    let mut maze = Maze::new(3, 3);
    open_east(&mut maze, 0, 0);
    open_south(&mut maze, 1, 0);
    open_east(&mut maze, 1, 1);
    let learned = run_learned(&maze, |n| (0..n).collect());
    for output in [bfs::solve(&maze), dfs::solve(&maze), random::solve(&maze), astar::solve(&maze), learned] {
        let mut explored: Vec<(usize, usize)> = vec![(0, 0)];
        explored.extend(output.trace.iter().map(|step| step.to));
        explored.sort();
        assert_eq!(explored, vec![(0, 0), (1, 0), (1, 1), (2, 1)]);
        assert!(output.path.is_none());
    }
}

#[test]
fn heuristic_is_manhattan_distance() {
    assert_eq!(heuristic((1, 2), (4, 0)), 5);
    assert_eq!(heuristic((4, 0), (1, 2)), 5);
    assert_eq!(heuristic((3, 3), (3, 3)), 0);
}

#[test]
fn simple_rng_steps_by_the_linear_congruence() {
    let mut rng = SimpleRng { state: 0 };
    assert_eq!(rng.next_usize(10), 1);
    assert_eq!(rng.state, 1);
    let value = rng.next_usize(10);
    assert_eq!(rng.state, LCG_MULTIPLIER.wrapping_add(1));
    assert_eq!(value, (rng.state as usize) % 10);
}

#[test]
fn shuffle_keeps_the_items() {
    let mut rng = SimpleRng::new();
    let mut items = vec![(0, 0), (1, 0), (2, 0), (3, 0), (4, 0)];
    shuffle(&mut items, &mut rng);
    items.sort();
    assert_eq!(items, vec![(0, 0), (1, 0), (2, 0), (3, 0), (4, 0)]);
}

#[test]
fn direction_indices() {
    assert_eq!(direction_index(Direction::North), 0);
    assert_eq!(direction_index(Direction::East), 1);
    assert_eq!(direction_index(Direction::South), 2);
    assert_eq!(direction_index(Direction::West), 3);
}

fn run_learned(maze: &Maze, pick: impl Fn(usize) -> Vec<usize>) -> SolverOutput {
    let mut step = LearnedSearch::begin(maze);
    loop {
        match step {
            LearnedStep::Done(output) => return output,
            LearnedStep::Expand(search) => {
                let order = pick(search.candidates().len());
                step = search.advance(maze, &order);
            }
        }
    }
}

#[test]
fn learned_search_explores_the_last_ranked_candidate_first() {
    let maze = fork();
    let output = run_learned(&maze, |n| (0..n).collect());
    check_output(&output, &maze, "Theseus");
    assert_eq!(output.stats.nodes_explored, 3);
    let reversed = run_learned(&maze, |n| (0..n).rev().collect());
    check_output(&reversed, &maze, "Theseus");
    assert_eq!(reversed.stats.nodes_explored, 4);
    assert_eq!(reversed.path.unwrap(), vec![(0, 0), (0, 1), (1, 1)]);
}

#[test]
fn learned_search_keeps_candidates_when_order_is_not_a_permutation() {
    let maze = fork();
    let output = run_learned(&maze, |n| vec![0; n]);
    assert_eq!(output.stats.nodes_explored, 3);
    let short = run_learned(&maze, |_| vec![]);
    assert_eq!(short.stats.nodes_explored, 3);
}

#[test]
fn learned_search_offers_unreached_neighbors_in_compass_order() {
    let maze = fork();
    match LearnedSearch::begin(&maze) {
        LearnedStep::Expand(search) => {
            assert_eq!(search.current(), (0, 0));
            assert_eq!(search.candidates(), &vec![(1, 0), (0, 1)]);
            assert_eq!(search.visited_neighbors(&maze), [false, false, false, false]);
            match search.advance(&maze, &vec![1, 0]) {
                LearnedStep::Expand(next) => {
                    assert_eq!(next.current(), (1, 0));
                    assert!(next.candidates().is_empty());
                    assert_eq!(next.visited_neighbors(&maze), [false, false, false, true]);
                }
                LearnedStep::Done(_) => panic!("the search should go on"),
            }
        }
        LearnedStep::Done(_) => panic!("the search should go on"),
    }
}

#[test]
fn learned_search_on_empty_maze_ends_at_once() {
    let maze = Maze::new(0, 0);
    match LearnedSearch::begin(&maze) {
        LearnedStep::Done(output) => {
            assert!(!output.stats.solved);
            assert!(output.path.is_none());
            assert_eq!(output.stats.nodes_explored, 0);
            assert_eq!(output.stats.algorithm, "Theseus");
        }
        LearnedStep::Expand(_) => panic!("nothing to explore"),
    }
}

#[test]
fn learned_search_reports_unreachable_exit() {
    let maze = Maze::new(2, 2);
    let output = run_learned(&maze, |n| (0..n).collect());
    assert!(!output.stats.solved);
    assert!(output.path.is_none());
    assert_eq!(output.stats.nodes_explored, 1);
}

#[test]
fn learned_search_solves_generated_mazes() {
    let maze = generate_maze(12, 12);
    let output = run_learned(&maze, |n| (0..n).rev().collect());
    check_output(&output, &maze, "Theseus");
    assert_eq!(output.path.unwrap(), bfs::solve(&maze).path.unwrap());
}

#[test]
fn shuffle_follows_the_fisher_yates_passes() {
    let mut rng = SimpleRng { state: 0 };
    let mut items = vec![(0, 0), (1, 0), (2, 0)];
    shuffle(&mut items, &mut rng);
    let second = LCG_MULTIPLIER.wrapping_add(1);
    assert_eq!(rng.state, second);
    let j = (second as usize) % 2;
    let mut expected = vec![(0, 0), (2, 0), (1, 0)];
    expected.swap(1, j);
    assert_eq!(items, expected);
}

#[test]
fn shortest_solvers_agree_on_length_in_a_maze_with_loops() {
    let mut maze = Maze::new(3, 3);
    for y in 0..3 {
        for x in 0..2 {
            open_east(&mut maze, x, y);
        }
    }
    for y in 0..2 {
        for x in 0..3 {
            open_south(&mut maze, x, y);
        }
    }
    let breadth = bfs::solve(&maze);
    let estimate = astar::solve(&maze);
    assert_eq!(breadth.path.as_ref().unwrap().len(), 5);
    assert_eq!(estimate.path.as_ref().unwrap().len(), 5);
}

#[test]
fn learned_search_explores_one_more_cell_each_step() {
    let maze = generate_maze(6, 5);
    let mut step = LearnedSearch::begin(&maze);
    let mut expansions = 0;
    while let LearnedStep::Expand(search) = step {
        expansions += 1;
        let order: Vec<usize> = (0..search.candidates().len()).collect();
        step = search.advance(&maze, &order);
    }
    assert!(expansions <= 6 * 5);
    match step {
        LearnedStep::Done(output) => assert!(output.path.is_some()),
        LearnedStep::Expand(_) => unreachable!(),
    }
}

#[test]
fn solvers_agree_when_the_reachable_cells_form_a_tree() {
    let mut maze = Maze::new(3, 3);
    open_east(&mut maze, 0, 0);
    open_east(&mut maze, 1, 0);
    open_south(&mut maze, 2, 0);
    open_south(&mut maze, 2, 1);
    open_east(&mut maze, 0, 1);
    open_south(&mut maze, 0, 1);
    let expected = vec![(0, 0), (1, 0), (2, 0), (2, 1), (2, 2)];
    assert_eq!(bfs::solve(&maze).path, Some(expected.clone()));
    assert_eq!(dfs::solve(&maze).path, Some(expected.clone()));
    assert_eq!(astar::solve(&maze).path, Some(expected.clone()));
    for _ in 0..10 {
        assert_eq!(random::solve(&maze).path, Some(expected.clone()));
    }
}

use pathfinding_sandbox::settings_reader::get_settings;
use pathfinding_sandbox::squares::{maze_square_type, Square, SquareCollection, SquareType};

fn fresh_grid() -> SquareCollection {
    // 3 columns and 3 rows: cells are 10 pixels wide, no reserved strip needs
    // the viewport to leave room below it.
    SquareCollection::new(10, 10, 30, 40)
}

fn cell(grid: &SquareCollection, x: usize, y: usize) -> SquareType {
    let snapshot = grid.get_current_state();
    snapshot[x * grid.y_len() + y]
}

#[test]
fn settings_hold_the_session_configuration() {
    let s = get_settings();
    assert_eq!(s.window_width, 1600);
    assert_eq!(s.window_height, 1000);
    assert_eq!(s.window_title, "Pathfinding");
    assert_eq!(s.square_width, 50);
    assert_eq!(s.top_offset, 100);
}

#[test]
fn new_square_is_blank_at_its_coordinates() {
    let sq = Square::new(4, 7);
    assert_eq!(sq.x_grid, 4);
    assert_eq!(sq.y_grid, 7);
    assert_eq!(*sq.get_square_type(), SquareType::Blank);
}

#[test]
fn start_is_never_downgraded_to_visited() {
    let mut sq = Square::new(0, 0);
    sq.set_square_type(SquareType::Start);
    sq.set_square_type(SquareType::Visited);
    assert_eq!(*sq.get_square_type(), SquareType::Start);
    sq.set_square_type(SquareType::Wall);
    assert_eq!(*sq.get_square_type(), SquareType::Wall);
}

#[test]
fn new_grid_is_all_blank_with_no_designations() {
    let grid = fresh_grid();
    assert_eq!(grid.x_len(), 3);
    assert_eq!(grid.y_len(), 3);
    assert!(!grid.is_start_set());
    assert!(!grid.is_objective_set());
    for t in grid.get_current_state() {
        assert_eq!(t, SquareType::Blank);
    }
}

#[test]
fn clear_blanks_every_cell_and_both_flags() {
    let mut grid = fresh_grid();
    grid.change_square_type((5, 15), SquareType::Wall);
    grid.change_square_type((15, 25), SquareType::Start);
    grid.change_square_type((25, 35), SquareType::Objective);
    grid.clear();
    assert!(!grid.is_start_set());
    assert!(!grid.is_objective_set());
    for t in grid.get_current_state() {
        assert_eq!(t, SquareType::Blank);
    }
}

#[test]
fn painting_twice_equals_painting_once() {
    let mut grid = fresh_grid();
    grid.change_square_type((15, 25), SquareType::Start);
    let once = grid.get_current_state();
    grid.change_square_type((15, 25), SquareType::Start);
    let twice = grid.get_current_state();
    assert_eq!(once, twice);
    assert!(grid.is_start_set());
}

#[test]
fn a_new_start_revokes_the_previous_one() {
    let mut grid = fresh_grid();
    grid.change_square_type((5, 15), SquareType::Start);
    grid.change_square_type((25, 35), SquareType::Start);
    let mut starts = 0;
    for t in grid.get_current_state() {
        if t == SquareType::Start {
            starts += 1;
        }
    }
    assert_eq!(starts, 1);
    assert_eq!(cell(&grid, 2, 2), SquareType::Start);
    assert_eq!(cell(&grid, 0, 0), SquareType::Blank);
}

#[test]
fn a_new_objective_revokes_the_previous_one() {
    let mut grid = fresh_grid();
    grid.change_square_type((5, 15), SquareType::Objective);
    grid.change_square_type((15, 15), SquareType::Objective);
    let mut objectives = 0;
    for t in grid.get_current_state() {
        if t == SquareType::Objective {
            objectives += 1;
        }
    }
    assert_eq!(objectives, 1);
    assert_eq!(cell(&grid, 1, 0), SquareType::Objective);
}

#[test]
fn painting_over_a_role_withdraws_its_flag() {
    let mut grid = fresh_grid();
    grid.change_square_type((5, 15), SquareType::Start);
    assert!(grid.is_start_set());
    grid.change_square_type((5, 15), SquareType::Wall);
    assert!(!grid.is_start_set());
    assert_eq!(cell(&grid, 0, 0), SquareType::Wall);
}

#[test]
fn painting_above_the_top_strip_is_a_no_op() {
    let mut grid = fresh_grid();
    grid.change_square_type((5, 5), SquareType::Wall);
    grid.change_square_type((5, 10), SquareType::Wall);
    for t in grid.get_current_state() {
        assert_eq!(t, SquareType::Blank);
    }
}

#[test]
fn painting_past_the_edge_clamps_onto_the_grid() {
    let mut grid = fresh_grid();
    grid.change_square_type((1000, 1000), SquareType::Wall);
    assert_eq!(cell(&grid, 2, 2), SquareType::Wall);
}

#[test]
fn maze_draws_map_to_the_stated_terrain() {
    assert_eq!(maze_square_type(0), SquareType::Wall);
    assert_eq!(maze_square_type(1), SquareType::Wall);
    assert_eq!(maze_square_type(2), SquareType::Blank);
    assert_eq!(maze_square_type(3), SquareType::Blank);
    assert_eq!(maze_square_type(4), SquareType::Blank);
}

#[test]
fn maze_generation_yields_only_walls_and_blanks_and_clears_flags() {
    let mut grid = SquareCollection::new(10, 0, 100, 100);
    grid.change_square_type((5, 5), SquareType::Start);
    grid.change_square_type((15, 15), SquareType::Objective);
    grid.generate_maze();
    assert!(!grid.is_start_set());
    assert!(!grid.is_objective_set());
    for t in grid.get_current_state() {
        assert!(t == SquareType::Wall || t == SquareType::Blank);
    }
}

#[test]
fn rerunning_maze_generation_changes_the_pattern() {
    let mut grid = SquareCollection::new(10, 0, 100, 100);
    grid.generate_maze();
    let first = grid.get_current_state();
    grid.generate_maze();
    let second = grid.get_current_state();
    // 100 independent 40/60 draws coincide with vanishing probability
    assert_ne!(first, second);
}

#[test]
fn history_navigation_without_a_run_is_a_no_op() {
    let mut grid = fresh_grid();
    grid.change_square_type((15, 25), SquareType::Wall);
    let before = grid.get_current_state();
    assert_eq!(grid.states_len(), 0);
    grid.load_next_state();
    grid.load_previous_state();
    assert_eq!(grid.get_current_state(), before);
    assert_eq!(grid.current_state_index(), 0);
}

fn count_of(grid: &SquareCollection, wanted: SquareType) -> usize {
    let mut n = 0;
    for t in grid.get_current_state() {
        if t == wanted {
            n += 1;
        }
    }
    n
}

#[test]
fn a_star_finds_a_three_cell_path_across_an_open_grid() {
    // 3x3 grid, start in one corner, objective in the opposite one: the
    // shortest path takes 4 steps, so 3 interior cells are marked.
    let mut grid = fresh_grid();
    grid.change_square_type((5, 15), SquareType::Start);
    grid.change_square_type((25, 35), SquareType::Objective);
    grid.search_algorithm(true, true);
    assert_eq!(count_of(&grid, SquareType::Solution), 3);
    assert_eq!(cell(&grid, 0, 0), SquareType::Start);
    assert_eq!(cell(&grid, 2, 2), SquareType::Objective);
    assert!(grid.states_len() >= 1);
    assert_eq!(grid.current_state_index(), grid.states_len() - 1);
}

#[test]
fn dijkstra_and_a_star_find_equally_long_paths() {
    // A wall splits the grid; both weighted variants must find a shortest
    // path of the same length around it.
    let mut first = SquareCollection::new(10, 0, 50, 50);
    first.change_square_type((5, 5), SquareType::Start);
    first.change_square_type((45, 45), SquareType::Objective);
    first.change_square_type((25, 5), SquareType::Wall);
    first.change_square_type((25, 15), SquareType::Wall);
    first.change_square_type((25, 25), SquareType::Wall);
    first.change_square_type((25, 35), SquareType::Wall);
    let mut second = SquareCollection::new(10, 0, 50, 50);
    second.change_square_type((5, 5), SquareType::Start);
    second.change_square_type((45, 45), SquareType::Objective);
    second.change_square_type((25, 5), SquareType::Wall);
    second.change_square_type((25, 15), SquareType::Wall);
    second.change_square_type((25, 25), SquareType::Wall);
    second.change_square_type((25, 35), SquareType::Wall);
    first.search_algorithm(true, true);
    second.search_algorithm(true, false);
    let a_star_path = count_of(&first, SquareType::Solution);
    let dijkstra_path = count_of(&second, SquareType::Solution);
    assert!(a_star_path > 0);
    assert_eq!(a_star_path, dijkstra_path);
}

#[test]
fn an_enclosed_objective_leaves_no_solution_cells() {
    // The objective sits in a corner behind two walls: the search exhausts
    // every reachable cell and marks no path.
    let mut grid = fresh_grid();
    grid.change_square_type((5, 15), SquareType::Start);
    grid.change_square_type((25, 35), SquareType::Objective);
    grid.change_square_type((25, 25), SquareType::Wall);
    grid.change_square_type((15, 35), SquareType::Wall);
    grid.search_algorithm(true, true);
    assert_eq!(count_of(&grid, SquareType::Solution), 0);
    assert!(count_of(&grid, SquareType::Visited) > 0);
    assert_eq!(cell(&grid, 2, 2), SquareType::Objective);
    assert_eq!(cell(&grid, 0, 0), SquareType::Start);
    assert!(grid.states_len() >= 1);
}

#[test]
fn an_enclosed_objective_exhausts_every_reachable_cell() {
    // Same sealed corner, run with Dijkstra: every open cell the start can
    // reach, other than the start itself, must end Visited.  Nine cells
    // minus two walls, the sealed objective and the start leave five.
    let mut grid = fresh_grid();
    grid.change_square_type((5, 15), SquareType::Start);
    grid.change_square_type((25, 35), SquareType::Objective);
    grid.change_square_type((25, 25), SquareType::Wall);
    grid.change_square_type((15, 35), SquareType::Wall);
    grid.search_algorithm(true, false);
    assert_eq!(count_of(&grid, SquareType::Visited), 5);
    assert_eq!(count_of(&grid, SquareType::Solution), 0);
    assert_eq!(cell(&grid, 0, 0), SquareType::Start);
    assert_eq!(cell(&grid, 2, 2), SquareType::Objective);
}

#[test]
fn a_forced_corridor_marks_exactly_its_interior() {
    // A 3x1 corridor: the only path is start, middle, objective, so the
    // single interior cell carries the solution and it is 4-adjacent to
    // both endpoints.
    let mut grid = SquareCollection::new(10, 0, 30, 10);
    grid.change_square_type((5, 5), SquareType::Start);
    grid.change_square_type((25, 5), SquareType::Objective);
    grid.search_algorithm(true, true);
    assert_eq!(grid.y_len(), 1);
    assert_eq!(cell(&grid, 1, 0), SquareType::Solution);
    assert_eq!(cell(&grid, 0, 0), SquareType::Start);
    assert_eq!(cell(&grid, 2, 0), SquareType::Objective);
    // the run expands the start and its successor, then meets the
    // objective: two expansion snapshots plus the final one
    assert_eq!(grid.states_len(), 3);
}

#[test]
fn history_navigation_cycles_back_to_the_final_snapshot() {
    let mut grid = fresh_grid();
    grid.change_square_type((5, 15), SquareType::Start);
    grid.change_square_type((25, 35), SquareType::Objective);
    grid.search_algorithm(true, true);
    let len = grid.states_len();
    assert!(len >= 1);
    let cursor = grid.current_state_index();
    let final_cells = grid.get_current_state();
    for _ in 0..len {
        grid.load_next_state();
    }
    assert_eq!(grid.current_state_index(), cursor);
    assert_eq!(grid.get_current_state(), final_cells);
    grid.load_previous_state();
    grid.load_next_state();
    assert_eq!(grid.current_state_index(), cursor);
    assert_eq!(grid.get_current_state(), final_cells);
}

#[test]
fn a_run_without_both_endpoints_only_wipes_old_markings() {
    let mut grid = fresh_grid();
    grid.change_square_type((5, 15), SquareType::Start);
    grid.search_algorithm(true, true);
    assert_eq!(grid.states_len(), 0);
    assert_eq!(count_of(&grid, SquareType::Visited), 0);
    assert_eq!(count_of(&grid, SquareType::Solution), 0);
    assert!(grid.is_start_set());
}

#[test]
fn greedy_best_first_reaches_an_unobstructed_objective() {
    let mut grid = fresh_grid();
    grid.change_square_type((5, 15), SquareType::Start);
    grid.change_square_type((25, 35), SquareType::Objective);
    grid.search_algorithm(false, true);
    assert_eq!(cell(&grid, 2, 2), SquareType::Objective);
    assert!(grid.states_len() >= 1);
    let solution = count_of(&grid, SquareType::Solution);
    assert!(solution >= 1);
}

use maze_image::grid::{Cell, GridConfig};
use maze_image::solver::{solver_sides, Solver};
use std::collections::VecDeque;

fn closed(n: usize) -> Vec<Cell> {
    vec![Cell { up: true, down: true, left: true, right: true }; n]
}

fn open_right(grid: &mut [Cell], i: usize) {
    grid[i].right = false;
    grid[i + 1].left = false;
}

fn open_down(grid: &mut [Cell], i: usize, width: usize) {
    grid[i].down = false;
    grid[i + width].up = false;
}

fn corridor() -> (GridConfig, Vec<Cell>) {
    let config = GridConfig::new(5, 1, 10, 0, 0);
    let mut grid = closed(5);
    for i in 0..4 {
        open_right(&mut grid, i);
    }
    (config, grid)
}

/// Hop distance by a plain breadth-first search, independent of the solver.
fn reference_distance(grid: &[Cell], width: usize, height: usize, from: usize, to: usize) -> Option<usize> {
    let mut dist = vec![usize::MAX; grid.len()];
    let mut queue = VecDeque::new();
    dist[from] = 0;
    queue.push_back(from);
    while let Some(v) = queue.pop_front() {
        let (x, y) = (v % width, v / width);
        let mut next = Vec::new();
        if y > 0 && !grid[v].up {
            next.push(v - width);
        }
        if y + 1 < height && !grid[v].down {
            next.push(v + width);
        }
        if x > 0 && !grid[v].left {
            next.push(v - 1);
        }
        if x + 1 < width && !grid[v].right {
            next.push(v + 1);
        }
        for w in next {
            if dist[w] == usize::MAX {
                dist[w] = dist[v] + 1;
                queue.push_back(w);
            }
        }
    }
    if dist[to] == usize::MAX { None } else { Some(dist[to]) }
}

fn run_to_end(solver: &mut Solver, grid: &Vec<Cell>, config: &GridConfig) {
    let mut guard = 0;
    while !solver.found && !solver.finished && guard < 10_000 {
        solver.step(grid, config);
        guard += 1;
    }
    while solver.found && !solver.finished && guard < 20_000 {
        solver.reconstruction_step();
        guard += 1;
    }
}

#[test]
fn corridor_needs_four_steps_and_four_links() {
    let (config, grid) = corridor();
    let mut solver = Solver::new(0, 4, &config);
    for _ in 0..3 {
        solver.step(&grid, &config);
        assert!(!solver.found);
    }
    solver.step(&grid, &config);
    assert!(solver.found);
    assert!(!solver.finished);
    assert!(solver.queue.is_empty());
    for _ in 0..3 {
        solver.reconstruction_step();
        assert!(!solver.finished);
    }
    solver.reconstruction_step();
    assert!(solver.finished);
    assert_eq!(solver.final_path, vec![3, 2, 1, 0]);
}

#[test]
fn shortest_path_matches_reference_search() {
    // 3x3: walls between rows 0 and 1 are down at columns 0 and 2 only,
    // rows 0 and 2 are open corridors, row 1 joins row 2 at column 1.
    let config = GridConfig::new(3, 3, 10, 0, 0);
    let mut grid = closed(9);
    open_right(&mut grid, 0);
    open_right(&mut grid, 1);
    open_right(&mut grid, 3);
    open_down(&mut grid, 0, 3);
    open_down(&mut grid, 2, 3);
    open_down(&mut grid, 4, 3);
    open_right(&mut grid, 6);
    open_right(&mut grid, 7);
    for (start, end) in [(0usize, 8usize), (3, 5), (6, 2), (1, 7)] {
        let mut solver = Solver::new(start, end, &config);
        run_to_end(&mut solver, &grid, &config);
        let expected = reference_distance(&grid, 3, 3, start, end);
        assert!(solver.found);
        assert!(solver.finished);
        assert_eq!(Some(solver.final_path.len()), expected);
        assert_eq!(*solver.final_path.last().unwrap(), start);
    }
}

#[test]
fn path_follows_open_passages() {
    let config = GridConfig::new(3, 3, 10, 0, 0);
    let mut grid = closed(9);
    open_right(&mut grid, 0);
    open_right(&mut grid, 1);
    open_down(&mut grid, 2, 3);
    open_down(&mut grid, 5, 3);
    open_right(&mut grid, 7);
    open_right(&mut grid, 6);
    let mut solver = Solver::new(0, 6, &config);
    run_to_end(&mut solver, &grid, &config);
    assert_eq!(solver.final_path, vec![7, 8, 5, 2, 1, 0]);
}

#[test]
fn redo_resets_everything() {
    let (config, grid) = corridor();
    let mut solver = Solver::new(0, 4, &config);
    run_to_end(&mut solver, &grid, &config);
    assert!(solver.finished);
    solver.redo(2, 0);
    assert_eq!(solver.visited, vec![false, false, true, false, false]);
    assert_eq!(solver.queue, VecDeque::from(vec![2]));
    assert!(!solver.found);
    assert!(!solver.finished);
    assert!(solver.final_path.is_empty());
    assert_eq!(solver.path, vec![None; 5]);
    assert_eq!(solver.path_pos, 0);
    assert_eq!((solver.start, solver.end), (2, 0));
}

#[test]
fn redo_midway_matches_new() {
    let (config, grid) = corridor();
    let mut solver = Solver::new(0, 4, &config);
    solver.step(&grid, &config);
    solver.step(&grid, &config);
    solver.redo(1, 3);
    let fresh = Solver::new(1, 3, &config);
    assert_eq!(solver.visited, fresh.visited);
    assert_eq!(solver.queue, fresh.queue);
    assert_eq!(solver.path, fresh.path);
    assert_eq!(solver.final_path, fresh.final_path);
    assert_eq!((solver.found, solver.finished), (fresh.found, fresh.finished));
}

#[test]
fn unreachable_target_ends_without_path() {
    let config = GridConfig::new(4, 1, 10, 0, 0);
    let mut grid = closed(4);
    open_right(&mut grid, 0);
    let mut solver = Solver::new(0, 3, &config);
    solver.step(&grid, &config);
    solver.step(&grid, &config);
    assert!(!solver.finished);
    solver.step(&grid, &config);
    assert!(solver.finished);
    assert!(!solver.found);
    solver.reconstruction_step();
    assert!(solver.final_path.is_empty());
}

#[test]
fn endpoints_outside_grid_finish_at_once() {
    let config = GridConfig::new(2, 2, 10, 0, 0);
    let solver = Solver::new(7, 1, &config);
    assert!(solver.finished);
    assert!(!solver.found);
    assert!(solver.queue.is_empty());
    assert!(solver.final_path.is_empty());
    let mut other = Solver::new(0, 9, &config);
    assert!(other.finished);
    other.redo(0, 3);
    assert!(!other.finished);
    other.redo(4, 0);
    assert!(other.finished);
    assert_eq!(other.visited, vec![false; 4]);
}

#[test]
fn empty_grid_solver_is_finished() {
    let config = GridConfig::new(0, 0, 10, 0, 0);
    let mut solver = Solver::new(0, 0, &config);
    assert!(solver.finished);
    solver.step(&Vec::new(), &config);
    assert!(solver.final_path.is_empty());
}

#[test]
fn step_outside_search_changes_nothing() {
    let (config, grid) = corridor();
    let mut solver = Solver::new(0, 1, &config);
    solver.step(&grid, &config);
    assert!(solver.found);
    let visited = solver.visited.clone();
    solver.step(&grid, &config);
    assert_eq!(solver.visited, visited);
    assert!(solver.queue.is_empty());
}

#[test]
fn solver_sides_lists_open_neighbours_left_right_up_down() {
    let config = GridConfig::new(3, 3, 10, 0, 0);
    let mut grid = closed(9);
    open_right(&mut grid, 3);
    open_right(&mut grid, 4);
    open_down(&mut grid, 1, 3);
    open_down(&mut grid, 4, 3);
    assert_eq!(solver_sides(4, &config, &grid), vec![3, 5, 1, 7]);
    assert_eq!(solver_sides(0, &config, &grid), Vec::<usize>::new());
    assert_eq!(solver_sides(7, &config, &grid), vec![4]);
}

#[test]
fn step_marks_parents_of_expanded_cell() {
    let config = GridConfig::new(3, 3, 10, 0, 0);
    let mut grid = closed(9);
    open_right(&mut grid, 3);
    open_right(&mut grid, 4);
    open_down(&mut grid, 1, 3);
    open_down(&mut grid, 4, 3);
    let mut solver = Solver::new(4, 8, &config);
    solver.step(&grid, &config);
    assert_eq!(solver.queue, VecDeque::from(vec![3, 5, 1, 7]));
    for i in [3, 5, 1, 7] {
        assert_eq!(solver.path[i], Some(4));
        assert!(solver.visited[i]);
    }
    assert!(!solver.found);
}

#[test]
fn step_stops_at_target() {
    let config = GridConfig::new(3, 3, 10, 0, 0);
    let mut grid = closed(9);
    open_right(&mut grid, 3);
    open_right(&mut grid, 4);
    open_down(&mut grid, 1, 3);
    open_down(&mut grid, 4, 3);
    let mut solver = Solver::new(4, 5, &config);
    solver.step(&grid, &config);
    assert!(solver.found);
    assert!(solver.queue.is_empty());
    assert!(solver.visited[3] && solver.visited[5]);
    assert!(!solver.visited[1] && !solver.visited[7]);
    solver.reconstruction_step();
    assert!(solver.finished);
    assert_eq!(solver.final_path, vec![4]);
}

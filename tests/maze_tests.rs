use maze_image::grid::{neighbor, Cell, Direction, GridConfig};
use maze_image::maze::{fuse_protected, generate, grow_tree, Maze};
use maze_image::protect::{count_ends, count_true, is_shortcut, main_component, reach_within, remove_shortcuts};
use std::collections::VecDeque;

fn open_passages(grid: &[Cell], config: &GridConfig) -> usize {
    let mut count = 0;
    for i in 0..config.grid_size {
        let (x, y) = (i % config.grid_width, i / config.grid_width);
        if x + 1 < config.grid_width && !grid[i].right {
            count += 1;
        }
        if y + 1 < config.grid_height && !grid[i].down {
            count += 1;
        }
    }
    count
}

fn distances(grid: &[Cell], config: &GridConfig, from: usize) -> Vec<Option<usize>> {
    let (w, h) = (config.grid_width, config.grid_height);
    let mut dist = vec![None; grid.len()];
    let mut queue = VecDeque::new();
    dist[from] = Some(0);
    queue.push_back(from);
    while let Some(v) = queue.pop_front() {
        let (x, y) = (v % w, v / w);
        let mut next = Vec::new();
        if y > 0 && !grid[v].up {
            next.push(v - w);
        }
        if y + 1 < h && !grid[v].down {
            next.push(v + w);
        }
        if x > 0 && !grid[v].left {
            next.push(v - 1);
        }
        if x + 1 < w && !grid[v].right {
            next.push(v + 1);
        }
        for n in next {
            if dist[n].is_none() {
                dist[n] = Some(dist[v].unwrap() + 1);
                queue.push_back(n);
            }
        }
    }
    dist
}

fn walls_agree(grid: &[Cell], config: &GridConfig) -> bool {
    let (w, h) = (config.grid_width, config.grid_height);
    for i in 0..grid.len() {
        let (x, y) = (i % w, i / w);
        if x + 1 < w && grid[i].right != grid[i + 1].left {
            return false;
        }
        if y + 1 < h && grid[i].down != grid[i + w].up {
            return false;
        }
        if x == 0 && !grid[i].left || x + 1 == w && !grid[i].right {
            return false;
        }
        if y == 0 && !grid[i].up || y + 1 == h && !grid[i].down {
            return false;
        }
    }
    true
}

fn protected_from(config: &GridConfig, cells: &[usize]) -> Vec<bool> {
    let mut p = vec![false; config.grid_size];
    for &c in cells {
        p[c] = true;
    }
    p
}

#[test]
fn five_by_five_tree_has_twenty_four_passages() {
    macroquad::rand::srand(42);
    let config = GridConfig::new(5, 5, 10, 0, 0);
    let grid = generate(None, &config);
    assert_eq!(grid.len(), 25);
    assert_eq!(open_passages(&grid, &config), 24);
    assert!(distances(&grid, &config, 0).iter().all(|d| d.is_some()));
    assert!(walls_agree(&grid, &config));
}

#[test]
fn trees_span_grids_of_many_shapes() {
    for (seed, (w, h)) in [(1u64, (1usize, 1usize)), (2, (1, 7)), (3, (7, 1)), (4, (4, 3)), (5, (10, 10)), (6, (13, 6))] {
        macroquad::rand::srand(seed);
        let config = GridConfig::new(w, h, 10, 0, 0);
        let grid = grow_tree(&config);
        assert_eq!(open_passages(&grid, &config), w * h - 1);
        assert!(walls_agree(&grid, &config));
        for from in [0, w * h - 1, (w * h) / 2] {
            assert!(distances(&grid, &config, from).iter().all(|d| d.is_some()));
        }
    }
}

#[test]
fn zero_area_grid_gives_empty_maze() {
    let config = GridConfig::new(0, 4, 10, 0, 0);
    assert!(generate(None, &config).is_empty());
    assert!(generate(Some(Vec::new()), &config).is_empty());
}

#[test]
fn fusion_opens_walls_between_protected_neighbours_only() {
    let config = GridConfig::new(3, 3, 10, 0, 0);
    let mut grid = vec![Cell::new(); 9];
    let protected = protected_from(&config, &[0, 1, 4, 8]);
    fuse_protected(&mut grid, &protected, &config);
    assert!(!grid[0].right && !grid[1].left);
    assert!(!grid[1].down && !grid[4].up);
    assert!(grid[4].right && grid[4].down && grid[8].up && grid[8].left);
    assert!(grid[0].down && grid[2].left);
    assert_eq!(open_passages(&grid, &config), 2);
    assert!(walls_agree(&grid, &config));
}

#[test]
fn main_component_is_the_largest() {
    let config = GridConfig::new(5, 3, 10, 0, 0);
    // Components {0, 1}, {3, 4, 9, 14}, {10}.
    let protected = protected_from(&config, &[0, 1, 3, 4, 9, 14, 10]);
    let main = main_component(&protected, &config);
    let expected = protected_from(&config, &[3, 4, 9, 14]);
    assert_eq!(main, expected);
    assert_eq!(count_true(&main), 4);
    assert_eq!(count_ends(&main, &protected, &config), 2);
}

#[test]
fn main_component_ties_go_to_the_first() {
    let config = GridConfig::new(4, 2, 10, 0, 0);
    let protected = protected_from(&config, &[2, 3, 4, 5]);
    let main = main_component(&protected, &config);
    assert_eq!(main, protected_from(&config, &[2, 3]));
    let none = main_component(&vec![false; 8], &config);
    assert_eq!(none, vec![false; 8]);
}

#[test]
fn branching_path_has_three_ends() {
    let config = GridConfig::new(3, 3, 10, 0, 0);
    let protected = protected_from(&config, &[1, 3, 4, 5]);
    let main = main_component(&protected, &config);
    assert_eq!(count_ends(&main, &protected, &config), 3);
}

#[test]
fn reach_within_stays_on_allowed_cells() {
    let config = GridConfig::new(4, 1, 10, 0, 0);
    let mut grid = vec![Cell::new(); 4];
    for i in 0..3 {
        grid[i].right = false;
        grid[i + 1].left = false;
    }
    let allowed = vec![true, true, false, true];
    assert_eq!(reach_within(&grid, &config, &allowed, 0), vec![true, true, false, false]);
    assert_eq!(reach_within(&grid, &config, &allowed, 3), vec![false, false, false, true]);
}

#[test]
fn loop_back_to_the_path_is_a_shortcut() {
    // 3x2 grid. Main path: top row 0-1-2. Bottom row 3-4-5 open, and both 0-3 and 2-5 open.
    let config = GridConfig::new(3, 2, 10, 0, 0);
    let mut grid = vec![Cell::new(); 6];
    for i in [0, 1, 3, 4] {
        grid[i].right = false;
        grid[i + 1].left = false;
    }
    for i in [0, 2] {
        grid[i].down = false;
        grid[i + 3].up = false;
    }
    let main = protected_from(&config, &[0, 1, 2]);
    let off: Vec<bool> = main.iter().map(|m| !m).collect();
    assert!(is_shortcut(&grid, &config, &main, &off, 3, 0));
    assert!(is_shortcut(&grid, &config, &main, &off, 5, 2));
    remove_shortcuts(&mut grid, &main, &config);
    // The first border wall met (0 down) is raised; then 2 down is the only way in and stays.
    assert!(grid[0].down && grid[3].up);
    assert!(!grid[2].down && !grid[5].up);
    assert!(!is_shortcut(&grid, &config, &main, &off, 5, 2));
    assert!(walls_agree(&grid, &config));
    assert!(distances(&grid, &config, 0).iter().all(|d| d.is_some()));
}

#[test]
fn dead_end_branch_is_kept() {
    let config = GridConfig::new(3, 2, 10, 0, 0);
    let mut grid = vec![Cell::new(); 6];
    for i in [0, 1] {
        grid[i].right = false;
        grid[i + 1].left = false;
    }
    grid[1].down = false;
    grid[4].up = false;
    grid[3].right = false;
    grid[4].left = false;
    let main = protected_from(&config, &[0, 1, 2]);
    let before = grid.clone();
    remove_shortcuts(&mut grid, &main, &config);
    assert_eq!(grid, before);
}

#[test]
fn protected_corridor_is_the_only_route() {
    // An L-shaped corridor of length 9 on a 7x7 grid.
    let config = GridConfig::new(7, 7, 10, 0, 0);
    let corridor = [8usize, 9, 10, 11, 12, 19, 26, 33, 40];
    for seed in 0..20u64 {
        macroquad::rand::srand(seed);
        let protected = protected_from(&config, &corridor);
        let grid = generate(Some(protected), &config);
        assert!(walls_agree(&grid, &config));
        for pair in corridor.windows(2) {
            let (a, b) = (pair[0], pair[1]);
            if b == a + 1 {
                assert!(!grid[a].right);
            } else {
                assert!(!grid[a].down);
            }
        }
        let dist = distances(&grid, &config, corridor[0]);
        assert_eq!(dist[corridor[8]], Some(8));
        // With the corridor cells blocked, no route joins two corridor cells.
        for (k, &cell) in corridor.iter().enumerate() {
            let d = dist[cell].unwrap();
            assert_eq!(d, k);
        }
    }
}

#[test]
fn neighbours_stop_at_the_border() {
    let config = GridConfig::new(3, 2, 10, 0, 0);
    assert_eq!(neighbor(&config, 0, Direction::Up), None);
    assert_eq!(neighbor(&config, 0, Direction::Left), None);
    assert_eq!(neighbor(&config, 0, Direction::Right), Some(1));
    assert_eq!(neighbor(&config, 0, Direction::Down), Some(3));
    assert_eq!(neighbor(&config, 5, Direction::Right), None);
    assert_eq!(neighbor(&config, 5, Direction::Down), None);
    assert_eq!(neighbor(&config, 5, Direction::Up), Some(2));
    assert_eq!(neighbor(&config, 3, Direction::Left), None);
    assert_eq!(config.index_of(2, 1), 5);
    assert_eq!(config.coords(4), (1, 1));
    assert_eq!(Direction::Left.opposite(), Direction::Right);
    assert_eq!(Direction::Up.opposite(), Direction::Down);
    assert_eq!(Direction::from_index(Direction::Right.index()), Direction::Right);
}

#[test]
fn cell_walls_can_be_set_one_side_at_a_time() {
    let mut cell = Cell::new();
    cell.set_wall(Direction::Left, false);
    assert!(!cell.has_wall(Direction::Left));
    assert!(cell.has_wall(Direction::Right) && cell.has_wall(Direction::Up) && cell.has_wall(Direction::Down));
    cell.set_wall(Direction::Left, true);
    assert_eq!(cell, Cell::new());
}

#[test]
fn maze_ticks_search_then_walk_back() {
    macroquad::rand::srand(7);
    let config = GridConfig::new(6, 4, 10, 0, 0);
    let mut maze = Maze::new(&config, None, 0, 23);
    maze.tick();
    assert_eq!(maze.solver.queue.len(), 1);
    maze.toggle_started();
    let mut guard = 0;
    while !maze.solver.finished && guard < 1000 {
        maze.tick();
        guard += 1;
    }
    assert!(maze.solver.found);
    let dist = distances(&maze.grid, &config, 0);
    assert_eq!(Some(maze.solver.final_path.len()), dist[23]);
    maze.set_end(5);
    assert!(!maze.solver.found && !maze.solver.finished);
    assert_eq!(maze.solver.end, 5);
    maze.set_start(2);
    assert_eq!(maze.solver.queue, VecDeque::from(vec![2]));
    maze.restart();
    assert_eq!(maze.solver.start, 2);
    maze.regenerate_maze(Some(vec![false; 24]));
    assert_eq!(open_passages(&maze.grid, &config), 23);
    assert!(maze.solver.visited[2]);
}

#[test]
fn branching_protection_is_fused_but_not_pruned() {
    // A plus sign: the main path has four ends, so only fusion applies.
    let config = GridConfig::new(5, 5, 10, 0, 0);
    let protected = protected_from(&config, &[7, 11, 12, 13, 17]);
    for seed in 0..10u64 {
        macroquad::rand::srand(seed);
        let grid = generate(Some(protected.clone()), &config);
        assert!(walls_agree(&grid, &config));
        assert!(!grid[12].up && !grid[12].down && !grid[12].left && !grid[12].right);
        assert!(distances(&grid, &config, 0).iter().all(|d| d.is_some()));
        assert!(open_passages(&grid, &config) >= 24);
    }
}

#[test]
fn generated_mazes_with_protection_stay_connected() {
    let config = GridConfig::new(9, 6, 10, 0, 0);
    let protected = protected_from(&config, &[10, 11, 12, 21, 30, 31, 32, 41, 50, 5, 6, 15]);
    for seed in 0..10u64 {
        macroquad::rand::srand(seed);
        let grid = generate(Some(protected.clone()), &config);
        assert!(walls_agree(&grid, &config));
        assert!(distances(&grid, &config, 0).iter().all(|d| d.is_some()));
        let main = main_component(&protected, &config);
        let off: Vec<bool> = main.iter().map(|m| !m).collect();
        for m in 0..config.grid_size {
            if !main[m] {
                continue;
            }
            for d in [Direction::Up, Direction::Down, Direction::Left, Direction::Right] {
                if let Some(u) = neighbor(&config, m, d) {
                    if !main[u] && !grid[m].has_wall(d) {
                        assert!(!is_shortcut(&grid, &config, &main, &off, u, m));
                    }
                }
            }
        }
    }
}

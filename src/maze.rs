use vstd::prelude::*;

use crate::grid::{
    all_connected, cell_open_count, connected, count_marked, is_walk, lemma_connected_via,
    lemma_coords, lemma_count_all, lemma_count_bounds, lemma_count_mark, lemma_count_none,
    lemma_index_coords, lemma_neighbor, lemma_open_count_change, lemma_set_passage_consistent,
    lemma_walk_opened, lemma_walk_push, lemma_with_passage_wall_walls, linked, neighbor,
    neighbor_of, open_count, open_passages, passage, set_passage_wall, unmarked, walls_consistent,
    with_passage_wall, Cell, Direction, GridConfig, MAX_CELLS,
};
use crate::protect::{
    allowed_walk, component, count_ends, escapes, fewer_passages, main_component, main_hub,
    no_shortcuts, on_main_border, path_ends, protected_walls, reachable_within, remove_shortcuts,
};
use crate::solver::Solver;

verus! {

/// Relies on macroquad::rand::gen_range (quad-rand): on integers it returns
/// `low + (high - low) * u` cut to an integer, with `u` a 32-bit draw scaled into
/// [0, 1); from 0 with `high` at most 2^32 this is below `high`.
#[verifier::external_body]
fn random_below(high: usize) -> (r: usize)
    requires
        0 < high <= 4 * MAX_CELLS,
    ensures
        r < high,
{
    macroquad::rand::gen_range(0, high)
}

proof fn lemma_count_one(n: nat, s: int)
    requires
        0 <= s < n,
    ensures
        count_marked(Seq::new(n, |i: int| i == s)) == 1,
    decreases n,
{
    let v = Seq::new(n, |i: int| i == s);
    if s < n - 1 {
        assert(v.drop_last() =~= Seq::new((n - 1) as nat, |i: int| i == s));
        lemma_count_one((n - 1) as nat, s);
    } else {
        lemma_count_none((n - 1) as nat);
        assert(v.drop_last() =~= Seq::new((n - 1) as nat, |i: int| false));
    }
}

/// A set of cells that holds `s` and every neighbour of its members holds every cell.
proof fn lemma_closed_is_all(c: GridConfig, v: Seq<bool>, s: int, x: int, y: int)
    requires
        c.wf(),
        v.len() == c.size(),
        0 <= s < c.size(),
        v[s],
        forall|i: int, d: Direction|
            0 <= i < c.size() && v[i] && #[trigger] neighbor_of(c, i, d) is Some ==> v[neighbor_of(
                c,
                i,
                d,
            ).unwrap()],
        0 <= x < c.width(),
        0 <= y < c.height(),
    ensures
        v[y * c.width() + x],
    decreases
            (if y > c.row(s) {
                y - c.row(s)
            } else {
                c.row(s) - y
            }) + (if x > c.col(s) {
                x - c.col(s)
            } else {
                c.col(s) - x
            }),
{
    let w = c.width();
    let h = c.height();
    lemma_coords(c, s);
    lemma_index_coords(w, h, x, y);
    let i = y * w + x;
    if y > c.row(s) {
        lemma_closed_is_all(c, v, s, x, y - 1);
        lemma_index_coords(w, h, x, y - 1);
        assert((y - 1) * w + x + w == y * w + x) by (nonlinear_arith);
        assert(neighbor_of(c, (y - 1) * w + x, Direction::Down) == Some(i));
    } else if y < c.row(s) {
        lemma_closed_is_all(c, v, s, x, y + 1);
        lemma_index_coords(w, h, x, y + 1);
        assert((y + 1) * w + x - w == y * w + x) by (nonlinear_arith);
        assert(neighbor_of(c, (y + 1) * w + x, Direction::Up) == Some(i));
    } else if x > c.col(s) {
        lemma_closed_is_all(c, v, s, x - 1, y);
        lemma_index_coords(w, h, x - 1, y);
        assert(neighbor_of(c, y * w + x - 1, Direction::Right) == Some(i));
    } else if x < c.col(s) {
        lemma_closed_is_all(c, v, s, x + 1, y);
        lemma_index_coords(w, h, x + 1, y);
        assert(neighbor_of(c, y * w + x + 1, Direction::Left) == Some(i));
    } else {
        assert(i == s);
    }
}

/// A grid of `n` cells with every wall standing.
pub fn closed_grid(n: usize) -> (r: Vec<Cell>)
    ensures
        r@.len() == n,
        forall|i: int| 0 <= i < n ==> (#[trigger] r@[i]).closed(),
{
    let mut v: Vec<Cell> = Vec::new();
    while v.len() < n
        invariant
            v@.len() <= n,
            forall|i: int| 0 <= i < v@.len() ==> (#[trigger] v@[i]).closed(),
        decreases n - v@.len(),
    {
        v.push(Cell::new());
    }
    v
}


pub open spec fn frontier_key(i: int, d: Direction) -> int {
    i * 4 + d.code()
}

/// The maze is a spanning tree of the grid: walls agree on both sides, the
/// border is closed, every cell reaches every other, and there is one open
/// passage fewer than there are cells.
pub open spec fn is_spanning_tree(cells: Seq<Cell>, c: GridConfig) -> bool {
    &&& walls_consistent(cells, c)
    &&& open_passages(cells, c) == c.size() - 1
    &&& forall|a: int, b: int|
        0 <= a < c.size() && 0 <= b < c.size() ==> #[trigger] connected(cells, c, a, b)
}

/// Every edge from a marked cell to an unmarked one waits among `items`.
#[verifier::opaque]
spec fn covers(c: GridConfig, visited: Seq<bool>, items: Seq<usize>) -> bool {
    forall|i: int, d: Direction|
        0 <= i < c.size() && visited[i] && #[trigger] neighbor_of(c, i, d) is Some && !visited[neighbor_of(
            c,
            i,
            d,
        ).unwrap()] ==> items.contains(frontier_key(i, d) as usize)
}

/// Taking out an entry whose edge leads nowhere new keeps the frontier complete.
proof fn lemma_covers_skip(
    c: GridConfig,
    visited: Seq<bool>,
    old_items: Seq<usize>,
    new_items: Seq<usize>,
    cell: int,
    d: Direction,
)
    requires
        c.wf(),
        covers(c, visited, old_items),
        visited.len() == c.size(),
        neighbor_of(c, cell, d) is Some ==> visited[neighbor_of(c, cell, d).unwrap()],
        forall|x: usize| #[trigger] old_items.contains(x) && x != frontier_key(cell, d) ==> new_items.contains(x),
    ensures
        covers(c, visited, new_items),
{
    reveal(covers);
    assert forall|i: int, d2: Direction|
        0 <= i < c.size() && visited[i] && #[trigger] neighbor_of(c, i, d2) is Some && !visited[neighbor_of(
            c,
            i,
            d2,
        ).unwrap()] implies new_items.contains(frontier_key(i, d2) as usize) by {
        if frontier_key(i, d2) == frontier_key(cell, d) {
            assert(i == cell && d2 == d);
        }
        assert(old_items.contains(frontier_key(i, d2) as usize));
    }
}

/// After carving into `nb` and adding its entries, the frontier is complete again.
proof fn lemma_covers_carve(
    c: GridConfig,
    visited: Seq<bool>,
    old_items: Seq<usize>,
    new_items: Seq<usize>,
    cell: int,
    d: Direction,
    nb: int,
)
    requires
        c.wf(),
        covers(c, visited, old_items),
        visited.len() == c.size(),
        0 <= nb < c.size(),
        neighbor_of(c, cell, d) == Some(nb),
        forall|x: usize| #[trigger] old_items.contains(x) && x != frontier_key(cell, d) ==> new_items.contains(x),
        forall|e: int| 0 <= e < 4 ==> #[trigger] new_items.contains((nb * 4 + e) as usize),
    ensures
        covers(c, visited.update(nb, true), new_items),
{
    reveal(covers);
    let v2 = visited.update(nb, true);
    assert forall|i: int, d2: Direction|
        0 <= i < c.size() && v2[i] && #[trigger] neighbor_of(c, i, d2) is Some && !v2[neighbor_of(
            c,
            i,
            d2,
        ).unwrap()] implies new_items.contains(frontier_key(i, d2) as usize) by {
        if i == nb {
            assert(new_items.contains((nb * 4 + d2.code()) as usize));
        } else {
            let j = neighbor_of(c, i, d2).unwrap();
            lemma_neighbor(c, i, d2);
            assert(visited[i] && !visited[j]);
            if frontier_key(i, d2) == frontier_key(cell, d) {
                assert(i == cell && d2 == d);
            }
            assert(old_items.contains(frontier_key(i, d2) as usize));
        }
    }
}

/// Working state of tree growth: the cells, which cells the tree holds, and
/// the frontier, kept as a list for random picks and a membership table in
/// lockstep with it. A frontier entry `key` stands for cell `key / 4` and the
/// direction with index `key % 4`.
struct Growth {
    cells: Vec<Cell>,
    visited: Vec<bool>,
    items: Vec<usize>,
    member: Vec<bool>,
}

impl Growth {
    spec fn tree_inv(&self, c: GridConfig, start: int) -> bool {
        let n = c.size();
        &&& c.wf()
        &&& 0 <= start < n
        &&& self.cells@.len() == n
        &&& self.visited@.len() == n
        &&& self.visited@[start]
        &&& walls_consistent(self.cells@, c)
        &&& forall|i: int| 0 <= i < n && !self.visited@[i] ==> (#[trigger] self.cells@[i]).closed()
        &&& forall|i: int|
            0 <= i < n && #[trigger] self.visited@[i] ==> connected(self.cells@, c, start, i)
        &&& open_passages(self.cells@, c) == count_marked(self.visited@) - 1
    }

    spec fn entries_ok(&self, c: GridConfig) -> bool {
        let n = c.size();
        &&& self.member@.len() == 4 * n
        &&& forall|t: int|
            0 <= t < self.items@.len() ==> #[trigger] self.items@[t] < 4 * n && self.visited@[(
            self.items@[t] / 4) as int]
        &&& forall|key: int|
            0 <= key < 4 * n && #[trigger] self.member@[key] ==> self.items@.contains(key as usize)
    }

    spec fn frontier_inv(&self, c: GridConfig) -> bool {
        &&& self.entries_ok(c)
        &&& self.items@.len() <= 4 * count_marked(self.visited@)
    }

    spec fn inv(&self, c: GridConfig, start: int) -> bool {
        self.tree_inv(c, start) && self.frontier_inv(c) && covers(c, self.visited@, self.items@)
    }

    spec fn measure(&self, c: GridConfig) -> int {
        4 * (c.size() - count_marked(self.visited@)) + self.items@.len()
    }

    /// Takes the frontier entry at position `idx` out of the list and the table.
    fn take_entry(&mut self, idx: usize, Ghost(c): Ghost<GridConfig>) -> (key: usize)
        requires
            c.wf(),
            old(self).frontier_inv(c),
            idx < old(self).items@.len(),
        ensures
            key == old(self).items@[idx as int],
            final(self).cells == old(self).cells,
            final(self).visited == old(self).visited,
            final(self).items@.len() == old(self).items@.len() - 1,
            forall|x: usize| #[trigger] old(self).items@.contains(x) && x != key ==> final(self).items@.contains(x),
            final(self).frontier_inv(c),
    {
        let ghost before = self.items@;
        let key = self.items.swap_remove(idx);
        self.member.set(key, false);
        proof {
            assert forall|x: usize| before.contains(x) && x != key implies self.items@.contains(x) by {
                let t = choose|t: int| 0 <= t < before.len() && before[t] == x;
                if t == before.len() - 1 {
                    assert(self.items@[idx as int] == x);
                } else {
                    assert(self.items@[t] == x);
                }
            }
            assert forall|k: int|
                0 <= k < 4 * c.size() && #[trigger] self.member@[k] implies self.items@.contains(k as usize) by {
                assert(old(self).member@[k]);
                assert(before.contains(k as usize));
            }
            assert forall|t: int| 0 <= t < self.items@.len() implies #[trigger] self.items@[t] < 4 * c.size() && self.visited@[(
            self.items@[t] / 4) as int] by {
                if t == idx {
                    assert(self.items@[t] == before[before.len() - 1]);
                } else {
                    assert(self.items@[t] == before[t]);
                }
            }
        }
        key
    }

    /// Adds the four entries of cell `nb` to the frontier, skipping those already there.
    fn add_entries(&mut self, nb: usize, Ghost(c): Ghost<GridConfig>)
        requires
            old(self).entries_ok(c),
            c.wf(),
            nb < c.size(),
            old(self).visited@.len() == c.size(),
            old(self).visited@[nb as int],
        ensures
            final(self).cells == old(self).cells,
            final(self).visited == old(self).visited,
            final(self).items@.len() <= old(self).items@.len() + 4,
            forall|x: usize| #[trigger] old(self).items@.contains(x) ==> final(self).items@.contains(x),
            forall|e: int| 0 <= e < 4 ==> #[trigger] final(self).items@.contains((nb * 4 + e) as usize),
            final(self).entries_ok(c),
    {
        let ghost n = c.size();
        let mut e: usize = 0;
        while e < 4
            invariant
                0 <= e <= 4,
                c.wf(),
                nb < n,
                n == c.size(),
                self.member@.len() == 4 * n,
                self.visited == old(self).visited,
                self.cells == old(self).cells,
                self.visited@[nb as int],
                self.visited@.len() == n,
                self.items@.len() <= old(self).items@.len() + e,
                forall|t: int|
                    0 <= t < self.items@.len() ==> #[trigger] self.items@[t] < 4 * n
                        && self.visited@[(self.items@[t] / 4) as int],
                forall|x: usize| #[trigger] old(self).items@.contains(x) ==> self.items@.contains(x),
                forall|key2: int|
                    0 <= key2 < 4 * n && #[trigger] self.member@[key2] ==> self.items@.contains(
                        key2 as usize,
                    ),
                forall|t: int| 0 <= t < e ==> #[trigger] self.items@.contains((nb * 4 + t) as usize),
            decreases 4 - e,
        {
            let key2 = nb * 4 + e;
            let ghost prev = self.items@;
            if !self.member[key2] {
                self.items.push(key2);
                self.member.set(key2, true);
                proof {
                    assert(self.items@[prev.len() as int] == key2);
                    assert forall|x: usize| prev.contains(x) implies #[trigger] self.items@.contains(x) by {
                        let t = choose|t: int| 0 <= t < prev.len() && prev[t] == x;
                        assert(self.items@[t] == x);
                    }
                }
            }
            e = e + 1;
        }
    }

    /// Clears the wall from tree cell `cell` to the outside cell `nb` and takes `nb` into the tree.
    fn carve(&mut self, config: &GridConfig, cell: usize, d: Direction, nb: usize, Ghost(start): Ghost<int>)
        requires
            old(self).tree_inv(*config, start),
            cell < config.grid_size,
            old(self).visited@[cell as int],
            !old(self).visited@[nb as int],
            neighbor_of(*config, cell as int, d) == Some(nb as int),
        ensures
            final(self).tree_inv(*config, start),
            final(self).visited@ == old(self).visited@.update(nb as int, true),
            final(self).items == old(self).items,
            final(self).member == old(self).member,
    {
        let ghost c = *config;
        let ghost old_cells = self.cells@;
        let ghost old_visited = self.visited@;
        proof {
            lemma_neighbor(c, cell as int, d);
            lemma_carve_effects(old_cells, c, cell as int, d);
        }
        set_passage_wall(&mut self.cells, config, cell, d, nb, false);
        self.visited.set(nb, true);
        proof {
            lemma_count_mark(old_visited, nb as int);
            lemma_set_passage_consistent(old_cells, c, cell as int, d, false);
            assert forall|i: int| 0 <= i < c.size() && #[trigger] self.visited@[i] implies connected(
                self.cells@,
                c,
                start,
                i,
            ) by {
                if i == nb {
                    let p = choose|p: Seq<int>|
                        is_walk(old_cells, c, p) && p[0] == start && p.last() == cell;
                    lemma_walk_opened(old_cells, self.cells@, c, p);
                    lemma_walk_push(self.cells@, c, p, nb as int);
                } else {
                    assert(old_visited[i]);
                    let p = choose|p: Seq<int>|
                        is_walk(old_cells, c, p) && p[0] == start && p.last() == i;
                    lemma_walk_opened(old_cells, self.cells@, c, p);
                }
            }
        }
    }

    /// One round of growth: a random frontier entry is taken out, and carved
    /// through when it leads from the tree to a cell outside it.
    fn advance(&mut self, config: &GridConfig, Ghost(start): Ghost<int>)
        requires
            old(self).inv(*config, start),
            old(self).items@.len() > 0,
        ensures
            final(self).inv(*config, start),
            final(self).measure(*config) < old(self).measure(*config),
    {
        let ghost c = *config;
        proof {
            lemma_count_bounds(self.visited@);
        }
        let idx = random_below(self.items.len());
        let ghost old_items = self.items@;
        let key = self.take_entry(idx, Ghost(c));
        let ghost after_remove = self.items@;
        let cell = key / 4;
        let d = Direction::from_index(key % 4);
        proof {
            assert(key as int == frontier_key(cell as int, d));
            assert(self.visited@[cell as int]);
        }
        match neighbor(config, cell, d) {
            None => {},
            Some(nb) => {
                if self.visited[cell] != self.visited[nb] {
                    let ghost old_visited = self.visited@;
                    self.carve(config, cell, d, nb, Ghost(start));
                    proof {
                        lemma_count_mark(old_visited, nb as int);
                    }
                    self.add_entries(nb, Ghost(c));
                    proof {
                        lemma_covers_carve(c, old_visited, old_items, self.items@, cell as int, d, nb as int);
                    }
                    return;
                }
            },
        }
        proof {
            lemma_covers_skip(c, self.visited@, old_items, self.items@, cell as int, d);
        }
    }
}

/// Grows a random spanning tree by frontier growth: start from a random cell
/// and repeatedly take a random frontier entry (a cell and a direction),
/// carving through to the neighbour when exactly one of the two is in the tree.
pub fn grow_tree(config: &GridConfig) -> (r: Vec<Cell>)
    requires
        config.wf(),
    ensures
        r@.len() == config.grid_size,
        config.grid_size > 0 ==> is_spanning_tree(r@, *config),
{
    let n = config.grid_size;
    let cells = closed_grid(n);
    if n == 0 {
        return cells;
    }
    let ghost c = *config;
    proof {
        assert forall|i: int, d: Direction| 0 <= i < c.size() implies match #[trigger] neighbor_of(
            c,
            i,
            d,
        ) {
            Some(j) => cells@[i].wall(d) == cells@[j].wall(d.opposite_spec()),
            None => cells@[i].wall(d),
        } by {
            if neighbor_of(c, i, d) is Some {
                lemma_neighbor(c, i, d);
            }
        }
        lemma_open_count_closed(cells@, c, c.size());
    }
    let mut visited = unmarked(n);
    let start = random_below(n);
    visited.set(start, true);
    proof {
        assert(visited@ =~= Seq::new(n as nat, |i: int| i == start));
        lemma_count_one(n as nat, start as int);
        let p = seq![start as int];
        assert(is_walk(cells@, c, p) && p[0] == start && p.last() == start);
    }
    let mut g = Growth { cells, visited, items: Vec::new(), member: unmarked(4 * n) };
    assert(g.tree_inv(c, start as int));
    g.add_entries(start, Ghost(c));
    proof {
        reveal(covers);
        assert forall|i: int, d: Direction|
            0 <= i < c.size() && g.visited@[i] && #[trigger] neighbor_of(c, i, d) is Some
                && !g.visited@[neighbor_of(c, i, d).unwrap()] implies g.items@.contains(
            frontier_key(i, d) as usize,
        ) by {
            assert(i == start);
            assert(g.items@.contains((start * 4 + d.code()) as usize));
        }
    }
    proof {
        lemma_count_bounds(g.visited@);
    }
    while g.items.len() > 0
        invariant
            g.inv(*config, start as int),
            g.measure(*config) >= 0,
        decreases g.measure(*config),
    {
        g.advance(config, Ghost(start as int));
        proof {
            lemma_count_bounds(g.visited@);
        }
    }
    let cells = g.cells;
    let visited = g.visited;
    proof {
        reveal(covers);
        assert forall|i: int, d: Direction|
            0 <= i < c.size() && visited@[i] && #[trigger] neighbor_of(c, i, d) is Some implies visited@[neighbor_of(
            c,
            i,
            d,
        ).unwrap()] by {
            if !visited@[neighbor_of(c, i, d).unwrap()] {
                assert(g.items@.contains(frontier_key(i, d) as usize));
            }
        }
        assert forall|i: int| 0 <= i < n implies visited@[i] by {
            lemma_coords(c, i);
            lemma_closed_is_all(c, visited@, start as int, c.col(i), c.row(i));
        }
        lemma_count_all(visited@);
        assert forall|a: int, b: int|
            0 <= a < c.size() && 0 <= b < c.size() implies #[trigger] connected(cells@, c, a, b) by {
            assert(visited@[a] && visited@[b]);
            lemma_connected_via(cells@, c, start as int, a, b);
        }
    }
    cells
}

proof fn lemma_open_count_closed(cells: Seq<Cell>, c: GridConfig, n: int)
    requires
        forall|i: int| 0 <= i < c.size() ==> (#[trigger] cells[i]).closed(),
        n <= c.size(),
    ensures
        open_count(cells, c, n) == 0,
    decreases n,
{
    if n > 0 {
        lemma_open_count_closed(cells, c, n - 1);
    }
}

/// Clearing the wall between a cell and a neighbour whose walls all stand adds one open passage.
proof fn lemma_carve_effects(cells: Seq<Cell>, c: GridConfig, i: int, d: Direction)
    requires
        c.wf(),
        walls_consistent(cells, c),
        0 <= i < c.size(),
        neighbor_of(c, i, d) is Some,
        cells[neighbor_of(c, i, d).unwrap()].closed(),
    ensures
        open_passages(with_passage_wall(cells, c, i, d, false), c) == open_passages(cells, c) + 1,
        forall|k: int, e: Direction| #[trigger] passage(cells, c, k, e) ==> passage(with_passage_wall(cells, c, i, d, false), c, k, e),
        linked(with_passage_wall(cells, c, i, d, false), c, i, neighbor_of(c, i, d).unwrap()),
{
    let j = neighbor_of(c, i, d).unwrap();
    let new = with_passage_wall(cells, c, i, d, false);
    lemma_neighbor(c, i, d);
    assert(cells[i].wall(d));
    let owner = match d {
        Direction::Right => i,
        Direction::Down => i,
        _ => j,
    };
    assert forall|k: int| k != owner implies cell_open_count(cells, c, k) == #[trigger] cell_open_count(new, c, k) by {
        if k == i || k == j {
            assert(new[k].right == cells[k].right);
            assert(new[k].down == cells[k].down);
        }
    }
    lemma_open_count_change(cells, new, c, owner, c.size());
    assert forall|k: int, e: Direction| #[trigger] passage(cells, c, k, e) implies passage(new, c, k, e) by {
        if k == i || k == j {
            assert(!new[k].wall(e));
        }
    }
}

/// Cell `k` and its neighbour in direction `e` are both protected.
pub open spec fn fusible(protected: Seq<bool>, c: GridConfig, k: int, e: Direction) -> bool {
    &&& 0 <= k < c.size()
    &&& protected[k]
    &&& neighbor_of(c, k, e) is Some
    &&& protected[neighbor_of(c, k, e).unwrap()]
}

/// Clears the walls between cell `i` and each protected neighbour, when `i` is protected.
fn fuse_cell(cells: &mut Vec<Cell>, protected: &Vec<bool>, config: &GridConfig, i: usize)
    requires
        config.wf(),
        old(cells)@.len() == config.grid_size,
        protected@.len() == config.grid_size,
        i < config.grid_size,
        walls_consistent(old(cells)@, *config),
    ensures
        final(cells)@.len() == config.grid_size,
        walls_consistent(final(cells)@, *config),
        forall|k: int, e: Direction|
            0 <= k < config.grid_size ==> #[trigger] final(cells)@[k].wall(e) == (old(cells)@[k].wall(e)
                && !(fusible(protected@, *config, k, e) && (k == i || neighbor_of(*config, k, e) == Some(
                i as int)))),
{
    let ghost c = *config;
    let ghost start = cells@;
    if !protected[i] {
        assert forall|k: int, e: Direction|
            0 <= k < config.grid_size implies #[trigger] cells@[k].wall(e) == (start[k].wall(e)
                && !(fusible(protected@, c, k, e) && (k == i || neighbor_of(c, k, e) == Some(i as int)))) by {
            if fusible(protected@, c, k, e) && neighbor_of(c, k, e) == Some(i as int) {
                lemma_neighbor(c, k, e);
            }
        }
        return;
    }
    let mut e: usize = 0;
    while e < 4
        invariant
            c == *config,
            c.wf(),
            0 <= e <= 4,
            i < c.size(),
            protected[i as int],
            cells@.len() == c.size(),
            protected@.len() == c.size(),
            walls_consistent(cells@, c),
            forall|k: int, e2: Direction|
                0 <= k < c.size() ==> #[trigger] cells@[k].wall(e2) == (start[k].wall(e2) && !(fusible(
                    protected@,
                    c,
                    k,
                    e2,
                ) && ((k == i && e2.code() < e) || (neighbor_of(c, k, e2) == Some(i as int)
                    && e2.opposite_spec().code() < e)))),
        decreases 4 - e,
    {
        let d = Direction::from_index(e);
        let ghost before = cells@;
        match neighbor(config, i, d) {
            Some(j) => {
                if protected[j] {
                    proof {
                        lemma_set_passage_consistent(before, c, i as int, d, false);
                        lemma_with_passage_wall_walls(before, c, i as int, d, false);
                        lemma_neighbor(c, i as int, d);
                    }
                    set_passage_wall(cells, config, i, d, j, false);
                    proof {
                        assert forall|k: int, e2: Direction| 0 <= k < c.size() implies #[trigger] cells@[k].wall(
                            e2,
                        ) == (start[k].wall(e2) && !(fusible(protected@, c, k, e2) && ((k == i
                            && e2.code() < e + 1) || (neighbor_of(c, k, e2) == Some(i as int)
                            && e2.opposite_spec().code() < e + 1)))) by {
                            assert(before[k].wall(e2) == cells@[k].wall(e2) || (k == i && e2 == d) || (
                            neighbor_of(c, k, e2) == Some(i as int) && e2 == d.opposite_spec()));
                            if neighbor_of(c, k, e2) == Some(i as int) {
                                lemma_neighbor(c, k, e2);
                            }
                        }
                    }
                } else {
                    proof {
                        assert forall|k: int, e2: Direction| 0 <= k < c.size() implies #[trigger] cells@[k].wall(
                            e2,
                        ) == (start[k].wall(e2) && !(fusible(protected@, c, k, e2) && ((k == i
                            && e2.code() < e + 1) || (neighbor_of(c, k, e2) == Some(i as int)
                            && e2.opposite_spec().code() < e + 1)))) by {
                            assert(before[k].wall(e2) == cells@[k].wall(e2));
                            if neighbor_of(c, k, e2) == Some(i as int) && e2.opposite_spec() == d {
                                lemma_neighbor(c, k, e2);
                            }
                        }
                    }
                }
            },
            None => {
                proof {
                    assert forall|k: int, e2: Direction| 0 <= k < c.size() implies #[trigger] cells@[k].wall(
                        e2,
                    ) == (start[k].wall(e2) && !(fusible(protected@, c, k, e2) && ((k == i && e2.code()
                        < e + 1) || (neighbor_of(c, k, e2) == Some(i as int) && e2.opposite_spec().code()
                        < e + 1)))) by {
                        assert(before[k].wall(e2) == cells@[k].wall(e2));
                        if neighbor_of(c, k, e2) == Some(i as int) && e2.opposite_spec() == d {
                            lemma_neighbor(c, k, e2);
                        }
                    }
                }
            },
        }
        e = e + 1;
    }
}

/// Opens every wall between two adjacent protected cells; all other walls keep their state.
pub fn fuse_protected(cells: &mut Vec<Cell>, protected: &Vec<bool>, config: &GridConfig)
    requires
        config.wf(),
        old(cells)@.len() == config.grid_size,
        protected@.len() == config.grid_size,
        walls_consistent(old(cells)@, *config),
    ensures
        final(cells)@.len() == config.grid_size,
        walls_consistent(final(cells)@, *config),
        forall|k: int, e: Direction|
            0 <= k < config.grid_size ==> #[trigger] final(cells)@[k].wall(e) == (old(cells)@[k].wall(e)
                && !fusible(protected@, *config, k, e)),
{
    let ghost c = *config;
    let ghost start = cells@;
    let n = config.grid_size;
    let mut i: usize = 0;
    while i < n
        invariant
            c == *config,
            c.wf(),
            n == c.size(),
            0 <= i <= n,
            cells@.len() == n,
            protected@.len() == n,
            walls_consistent(cells@, c),
            forall|k: int, e: Direction|
                0 <= k < n ==> #[trigger] cells@[k].wall(e) == (start[k].wall(e) && !(fusible(
                    protected@,
                    c,
                    k,
                    e,
                ) && (k < i || 0 <= neighbor_of(c, k, e).unwrap() < i))),
        decreases n - i,
    {
        let ghost before = cells@;
        fuse_cell(cells, protected, config, i);
        proof {
            assert forall|k: int, e: Direction| 0 <= k < n implies #[trigger] cells@[k].wall(e) == (
            start[k].wall(e) && !(fusible(protected@, c, k, e) && (k < i + 1 || 0 <= neighbor_of(
                c,
                k,
                e,
            ).unwrap() < i + 1))) by {
                assert(cells@[k].wall(e) == (before[k].wall(e) && !(fusible(protected@, c, k, e) && (k
                    == i || neighbor_of(c, k, e) == Some(i as int)))));
            }
        }
        i = i + 1;
    }
    proof {
        assert forall|k: int, e: Direction| 0 <= k < n implies #[trigger] cells@[k].wall(e) == (
        start[k].wall(e) && !fusible(protected@, c, k, e)) by {
            if fusible(protected@, c, k, e) {
                lemma_neighbor(c, k, e);
            }
        }
    }
}

/// `f` is the tree `t` with every wall between two adjacent protected cells opened.
pub open spec fn fused_with(f: Seq<Cell>, t: Seq<Cell>, protected: Seq<bool>, c: GridConfig) -> bool {
    &&& f.len() == c.size()
    &&& forall|k: int, e: Direction|
        0 <= k < c.size() ==> #[trigger] f[k].wall(e) == (t[k].wall(e) && !fusible(protected, c, k, e))
}

/// `main` is the largest component of protected cells, the first from the lowest
/// index among equals, and holds nothing when no cell is protected.
pub open spec fn is_main_path(main: Seq<bool>, protected: Seq<bool>, c: GridConfig) -> bool {
    &&& main.len() == c.size()
    &&& (forall|k: int| 0 <= k < c.size() ==> !protected[k]) ==> (forall|k: int|
        0 <= k < c.size() ==> !main[k])
    &&& (exists|k: int| 0 <= k < c.size() && protected[k]) ==> exists|s: int|
        0 <= s < c.size() && protected[s] && main == component(protected, c, s) && (forall|t: int|
            0 <= t < c.size() && protected[t] ==> count_marked(#[trigger] component(protected, c, t))
                <= count_marked(main)) && (forall|t: int|
            0 <= t < s && protected[t] ==> count_marked(#[trigger] component(protected, c, t))
                < count_marked(main))
}

/// `r` is `f` after shortcut removal around `main`: only walls on the border of
/// the main path were raised, each one a shortcut in `f`, and none is left.
pub open spec fn shortcuts_removed(r: Seq<Cell>, f: Seq<Cell>, main: Seq<bool>, c: GridConfig) -> bool {
    &&& r.len() == c.size()
    &&& walls_consistent(r, c)
    &&& fewer_passages(r, f, c)
    &&& forall|k: int, e: Direction|
        0 <= k < c.size() && !on_main_border(main, c, k, e) ==> #[trigger] r[k].wall(e) == f[k].wall(e)
    &&& forall|m: int, d: Direction|
        0 <= m < c.size() && main[m] && #[trigger] passage(f, c, m, d) && !main[neighbor_of(
            c,
            m,
            d,
        ).unwrap()] && !passage(r, c, m, d) ==> escapes(f, c, main, neighbor_of(c, m, d).unwrap(), m)
    &&& no_shortcuts(r, c, main)
}

/// `r` comes from the spanning tree `t` (any tree, for an empty grid) by fusing
/// the protected cells into `f` and, when the main path `main` has exactly two
/// ends, removing the shortcuts around it.
pub open spec fn shaped_by_protection(
    r: Seq<Cell>,
    t: Seq<Cell>,
    f: Seq<Cell>,
    main: Seq<bool>,
    protected: Seq<bool>,
    c: GridConfig,
) -> bool {
    &&& (c.size() > 0 ==> is_spanning_tree(t, c))
    &&& t.len() == c.size()
    &&& fused_with(f, t, protected, c)
    &&& is_main_path(main, protected, c)
    &&& if count_marked(path_ends(main, protected, c)) == 2 {
        shortcuts_removed(r, f, main, c)
    } else {
        r == f
    }
}

/// Builds a maze: a random spanning tree; with a protected grid, the walls
/// between adjacent protected cells opened, and when the main path has
/// exactly two ends, the shortcuts around it removed.
pub fn generate(protected: Option<Vec<bool>>, config: &GridConfig) -> (r: Vec<Cell>)
    requires
        config.wf(),
        protected matches Some(p) ==> p@.len() == config.grid_size,
    ensures
        r@.len() == config.grid_size,
        walls_consistent(r@, *config),
        protected is None && config.grid_size > 0 ==> is_spanning_tree(r@, *config),
        protected matches Some(p) ==> exists|t: Seq<Cell>, f: Seq<Cell>, main: Seq<bool>|
            shaped_by_protection(r@, t, f, main, p@, *config),
        config.grid_size > 0 ==> all_connected(r@, *config),
{
    let mut cells = grow_tree(config);
    let ghost c = *config;
    proof {
        if c.size() == 0 {
            assert forall|i: int, d: Direction| 0 <= i < c.size() implies match #[trigger] neighbor_of(
                c,
                i,
                d,
            ) {
                Some(j) => cells@[i].wall(d) == cells@[j].wall(d.opposite_spec()),
                None => cells@[i].wall(d),
            } by {}
        }
    }
    match protected {
        None => cells,
        Some(p) => {
            let ghost tree = cells@;
            fuse_protected(&mut cells, &p, config);
            let ghost fused = cells@;
            proof {
                if c.size() > 0 {
                    lemma_fused_connected(tree, fused, p@, c);
                }
            }
            let main = main_component(&p, config);
            if count_ends(&main, &p, config) == 2 {
                proof {
                    lemma_ends_need_protection(main@, p@, c);
                    let s = choose|s: int|
                        0 <= s < c.size() && p@[s] && main@ == component(p@, c, s) && (forall|t: int|
                            0 <= t < c.size() && p@[t] ==> count_marked(#[trigger] component(p@, c, t))
                                <= count_marked(main@)) && (forall|t: int|
                            0 <= t < s && p@[t] ==> count_marked(#[trigger] component(p@, c, t))
                                < count_marked(main@));
                    lemma_fused_hub(tree, fused, p@, main@, s, c);
                }
                remove_shortcuts(&mut cells, &main, config);
            }
            proof {
                assert(fused_with(fused, tree, p@, c));
                assert(is_main_path(main@, p@, c));
                assert(shaped_by_protection(cells@, tree, fused, main@, p@, c));
            }
            cells
        },
    }
}

/// Fusing the protected cells into a spanning tree keeps every cell connected.
proof fn lemma_fused_connected(t: Seq<Cell>, f: Seq<Cell>, protected: Seq<bool>, c: GridConfig)
    requires
        c.wf(),
        c.size() > 0,
        is_spanning_tree(t, c),
        fused_with(f, t, protected, c),
    ensures
        all_connected(f, c),
{
    assert forall|k: int, e: Direction| #[trigger] passage(t, c, k, e) implies passage(f, c, k, e) by {}
    assert forall|a: int, b: int| 0 <= a < c.size() && 0 <= b < c.size() implies #[trigger] connected(f, c, a, b) by {
        assert(connected(t, c, a, b));
        let p = choose|p: Seq<int>| is_walk(t, c, p) && p[0] == a && p.last() == b;
        lemma_walk_opened(t, f, c, p);
    }
}

/// After fusion, every cell of the component of `s` is reachable from `s` within the component.
proof fn lemma_fused_hub(t: Seq<Cell>, f: Seq<Cell>, protected: Seq<bool>, main: Seq<bool>, s: int, c: GridConfig)
    requires
        c.wf(),
        t.len() == c.size(),
        fused_with(f, t, protected, c),
        protected.len() == c.size(),
        0 <= s < c.size(),
        protected[s],
        main == component(protected, c, s),
    ensures
        main_hub(f, c, main, s),
{
    let pg = protected_walls(protected, c);
    assert forall|k: int, e: Direction| #[trigger] passage(pg, c, k, e) implies passage(f, c, k, e) by {}
    let w0 = seq![s];
    assert(allowed_walk(pg, c, protected, w0) && w0[0] == s && w0.last() == s);
    assert(main[s]);
    assert forall|x: int| 0 <= x < c.size() && #[trigger] main[x] implies reachable_within(f, c, main, s, x) by {
        let w = choose|w: Seq<int>| allowed_walk(pg, c, protected, w) && w[0] == s && w.last() == x;
        lemma_walk_opened(pg, f, c, w);
        assert forall|k: int| 0 <= k < w.len() implies main[#[trigger] w[k]] by {
            let pre = w.take(k + 1);
            assert forall|i: int| 0 <= i < pre.len() - 1 implies linked(pg, c, #[trigger] pre[i], pre[i + 1]) by {
                assert(pre[i] == w[i] && pre[i + 1] == w[i + 1]);
            }
            assert forall|i: int| 0 <= i < pre.len() implies protected[#[trigger] pre[i]] && 0 <= pre[i] < c.size() by {
                assert(pre[i] == w[i]);
            }
            assert(allowed_walk(pg, c, protected, pre) && pre[0] == s && pre.last() == w[k]);
            assert(0 <= w[k] < c.size());
        }
        assert(allowed_walk(f, c, main, w));
    }
}

proof fn lemma_count_zero(v: Seq<bool>)
    requires
        forall|i: int| 0 <= i < v.len() ==> !v[i],
    ensures
        count_marked(v) == 0,
    decreases v.len(),
{
    if v.len() > 0 {
        lemma_count_zero(v.drop_last());
    }
}

/// A main path with two ends needs a protected cell.
proof fn lemma_ends_need_protection(main: Seq<bool>, protected: Seq<bool>, c: GridConfig)
    requires
        is_main_path(main, protected, c),
        count_marked(path_ends(main, protected, c)) == 2,
    ensures
        exists|k: int| 0 <= k < c.size() && protected[k],
{
    if forall|k: int| 0 <= k < c.size() ==> !protected[k] {
        lemma_count_zero(path_ends(main, protected, c));
    }
}

/// A maze with its solver: the grid, the endpoints of the search, and whether the search runs.
pub struct Maze {
    pub config: GridConfig,
    pub grid: Vec<Cell>,
    pub solver: Solver,
    pub start: usize,
    pub end: usize,
    pub started: bool,
}

impl Maze {
    pub open spec fn wf(self) -> bool {
        &&& self.config.wf()
        &&& self.grid@.len() == self.config.grid_size
        &&& walls_consistent(self.grid@, self.config)
        &&& self.solver.wf()
        &&& self.solver.num_cells() == self.config.grid_size
    }

    /// A fresh maze for `config`, with a search from `start` to `end` that has not started.
    pub fn new(config: &GridConfig, protected: Option<Vec<bool>>, start: usize, end: usize) -> (r: Maze)
        requires
            config.wf(),
            protected matches Some(p) ==> p@.len() == config.grid_size,
        ensures
            r.wf(),
            r.config == *config,
            r.start == start,
            r.end == end,
            !r.started,
            r.solver.is_fresh(start, end, config.grid_size as nat),
            protected is None && config.grid_size > 0 ==> is_spanning_tree(r.grid@, *config),
            config.grid_size > 0 ==> all_connected(r.grid@, *config),
    {
        let grid = generate(protected, config);
        Maze { config: *config, grid, solver: Solver::new(start, end, config), start, end, started: false }
    }

    /// Replaces the grid by a newly generated one and starts the search over.
    pub fn regenerate_maze(&mut self, protected: Option<Vec<bool>>)
        requires
            old(self).wf(),
            protected matches Some(p) ==> p@.len() == old(self).config.grid_size,
        ensures
            final(self).wf(),
            final(self).config == old(self).config,
            final(self).start == old(self).start,
            final(self).end == old(self).end,
            final(self).started == old(self).started,
            final(self).solver.is_fresh(old(self).start, old(self).end, old(self).config.grid_size as nat),
            protected is None && old(self).config.grid_size > 0 ==> is_spanning_tree(
                final(self).grid@,
                old(self).config,
            ),
            old(self).config.grid_size > 0 ==> all_connected(final(self).grid@, old(self).config),
    {
        self.grid = generate(protected, &self.config);
        self.solver.redo(self.start, self.end);
    }

    /// Moves the start of the search to cell `i` and starts the search over.
    pub fn set_start(&mut self, i: usize)
        requires
            old(self).wf(),
        ensures
            final(self).wf(),
            final(self).grid == old(self).grid,
            final(self).config == old(self).config,
            final(self).start == i,
            final(self).end == old(self).end,
            final(self).started == old(self).started,
            final(self).solver.is_fresh(i, old(self).end, old(self).config.grid_size as nat),
    {
        self.start = i;
        self.solver.redo(self.start, self.end);
    }

    /// Moves the target of the search to cell `i` and starts the search over.
    pub fn set_end(&mut self, i: usize)
        requires
            old(self).wf(),
        ensures
            final(self).wf(),
            final(self).grid == old(self).grid,
            final(self).config == old(self).config,
            final(self).start == old(self).start,
            final(self).end == i,
            final(self).started == old(self).started,
            final(self).solver.is_fresh(old(self).start, i, old(self).config.grid_size as nat),
    {
        self.end = i;
        self.solver.redo(self.start, self.end);
    }

    /// Starts the search over between the current endpoints.
    pub fn restart(&mut self)
        requires
            old(self).wf(),
        ensures
            final(self).wf(),
            final(self).grid == old(self).grid,
            final(self).config == old(self).config,
            final(self).start == old(self).start,
            final(self).end == old(self).end,
            final(self).started == old(self).started,
            final(self).solver.is_fresh(old(self).start, old(self).end, old(self).config.grid_size as nat),
    {
        self.solver.redo(self.start, self.end);
    }

    /// Pauses a running search or resumes a paused one.
    pub fn toggle_started(&mut self)
        requires
            old(self).wf(),
        ensures
            final(self).wf(),
            final(self).grid == old(self).grid,
            final(self).config == old(self).config,
            final(self).start == old(self).start,
            final(self).end == old(self).end,
            final(self).solver == old(self).solver,
            final(self).started == !old(self).started,
    {
        self.started = !self.started;
    }

    /// One tick of the animation: while the search runs, expand one cell until
    /// the target is found, then follow one parent link back per tick.
    pub fn tick(&mut self)
        requires
            old(self).wf(),
        ensures
            final(self).wf(),
            final(self).grid == old(self).grid,
            final(self).config == old(self).config,
            final(self).start == old(self).start,
            final(self).end == old(self).end,
            final(self).started == old(self).started,
            !old(self).started ==> final(self).solver == old(self).solver,
            old(self).started && !old(self).solver.found ==> old(self).solver.stepped(
                final(self).solver,
                old(self).grid@,
                old(self).config,
            ),
            old(self).started && old(self).solver.found ==> old(self).solver.walked_back(
                final(self).solver,
            ),
    {
        if self.started {
            if !self.solver.found {
                self.solver.step(&self.grid, &self.config);
            } else {
                self.solver.reconstruction_step();
            }
        }
    }
}

} // verus!

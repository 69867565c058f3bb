use std::collections::VecDeque;
use vstd::prelude::*;

use crate::grid::{unmarked, neighbor, lemma_coords, neighbor_of, passage, Cell, Direction, GridConfig};

verus! {

/// Breadth-first search over open passages, advanced one expansion per call,
/// then walked back from the target one parent link per call.
pub struct Solver {
    pub start: usize,
    pub end: usize,
    pub queue: VecDeque<usize>,
    pub visited: Vec<bool>,
    pub path: Vec<Option<usize>>,
    pub path_pos: usize,
    pub final_path: Vec<usize>,
    pub found: bool,
    pub finished: bool,
}

/// The neighbour of `i` in direction `d` as a one-element sequence when an open passage leads there.
pub open spec fn open_toward(cells: Seq<Cell>, c: GridConfig, i: int, d: Direction) -> Seq<usize> {
    if passage(cells, c, i, d) {
        seq![neighbor_of(c, i, d).unwrap() as usize]
    } else {
        Seq::empty()
    }
}

/// The cells joined to `i` by an open passage, in the order left, right, up, down.
pub open spec fn open_neighbors(cells: Seq<Cell>, c: GridConfig, i: int) -> Seq<usize> {
    open_toward(cells, c, i, Direction::Left) + open_toward(cells, c, i, Direction::Right)
        + open_toward(cells, c, i, Direction::Up) + open_toward(cells, c, i, Direction::Down)
}

pub open spec fn unvisited(visited: Seq<bool>) -> spec_fn(usize) -> bool {
    |n: usize| !visited[n as int]
}

/// The prefix of `s` up to and including the first `t`; all of `s` when `t` does not occur.
pub open spec fn through_first(s: Seq<usize>, t: usize) -> Seq<usize>
    decreases s.len(),
{
    if s.len() == 0 {
        s
    } else if s[0] == t {
        seq![t]
    } else {
        seq![s[0]] + through_first(s.drop_first(), t)
    }
}

/// `visited` with every cell of `s` marked.
pub open spec fn mark_visited(visited: Seq<bool>, s: Seq<usize>) -> Seq<bool> {
    Seq::new(visited.len(), |i: int| visited[i] || s.contains(i as usize))
}

/// `parents` with every cell of `s` given the parent `cell`.
pub open spec fn link_parents(parents: Seq<Option<usize>>, s: Seq<usize>, cell: usize) -> Seq<
    Option<usize>,
> {
    Seq::new(parents.len(), |i: int| if s.contains(i as usize) { Some(cell) } else { parents[i] })
}

impl Solver {
    pub open spec fn num_cells(self) -> nat {
        self.visited@.len()
    }

    pub open spec fn wf(self) -> bool {
        let n = self.num_cells();
        &&& self.path@.len() == n
        &&& forall|k: int| 0 <= k < self.queue@.len() ==> #[trigger] self.queue@[k] < n
        &&& forall|i: int| 0 <= i < n ==> (#[trigger] self.path@[i] matches Some(p) ==> p < n)
        &&& !self.finished ==> self.path_pos < n
    }

    pub open spec fn searching(self) -> bool {
        !self.found && !self.finished
    }

    /// The state of a search from `start` to `end` over `n` cells that has not yet begun:
    /// only `start` is visited and queued; with an endpoint outside the grid
    /// the search is over at once, with nothing found.
    pub open spec fn is_fresh(self, start: usize, end: usize, n: nat) -> bool {
        &&& self.start == start
        &&& self.end == end
        &&& self.path_pos == end
        &&& self.visited@.len() == n
        &&& self.path@.len() == n
        &&& forall|i: int| 0 <= i < n ==> #[trigger] self.path@[i] is None
        &&& self.final_path@.len() == 0
        &&& !self.found
        &&& if start < n && end < n {
            &&& forall|i: int| 0 <= i < n ==> #[trigger] self.visited@[i] == (i == start)
            &&& self.queue@ == seq![start]
            &&& !self.finished
        } else {
            &&& forall|i: int| 0 <= i < n ==> !#[trigger] self.visited@[i]
            &&& self.queue@.len() == 0
            &&& self.finished
        }
    }

    /// `next` is this state after one expansion step on the grid `cells`.
    pub open spec fn stepped(self, next: Solver, cells: Seq<Cell>, c: GridConfig) -> bool {
        &&& next.start == self.start
        &&& next.end == self.end
        &&& next.path_pos == self.path_pos
        &&& next.final_path@ == self.final_path@
        &&& !self.searching() ==> {
            &&& next.visited@ == self.visited@
            &&& next.path@ == self.path@
            &&& next.queue@ == self.queue@
            &&& next.found == self.found
            &&& next.finished == self.finished
        }
        &&& self.searching() && self.queue@.len() == 0 ==> {
            &&& next.visited@ == self.visited@
            &&& next.path@ == self.path@
            &&& next.queue@ == self.queue@
            &&& !next.found
            &&& next.finished
        }
        &&& self.searching() && self.queue@.len() > 0 ==> {
            let cell = self.queue@[0];
            let fresh = open_neighbors(cells, c, cell as int).filter(
                unvisited(self.visited@),
            );
            let taken = through_first(fresh, self.end);
            &&& next.visited@ == mark_visited(self.visited@, taken)
            &&& next.path@ == link_parents(self.path@, taken, cell)
            &&& next.found == fresh.contains(self.end)
            &&& !next.finished
            &&& next.queue@ == if next.found {
                Seq::<usize>::empty()
            } else {
                self.queue@.drop_first() + fresh
            }
        }
    }

    /// `next` is this state after one step back along the parent links.
    pub open spec fn walked_back(self, next: Solver) -> bool {
        &&& next.start == self.start
        &&& next.end == self.end
        &&& next.visited@ == self.visited@
        &&& next.path@ == self.path@
        &&& next.queue@ == self.queue@
        &&& next.found == self.found
        &&& !(self.found && !self.finished) ==> {
            &&& next.path_pos == self.path_pos
            &&& next.final_path@ == self.final_path@
            &&& next.finished == self.finished
        }
        &&& self.found && !self.finished ==> match self.path@[self.path_pos as int] {
            Some(p) => {
                &&& next.path_pos == p
                &&& next.final_path@ == self.final_path@.push(p)
                &&& next.finished == (self.path@[p as int] is None)
            },
            None => {
                &&& next.path_pos == self.path_pos
                &&& next.final_path@ == self.final_path@
                &&& next.finished
            }
        }
    }

    /// A solver for a search from `start` to `end` on the grid of `config`.
    pub fn new(start: usize, end: usize, config: &GridConfig) -> (r: Solver)
        requires
            config.wf(),
        ensures
            r.wf(),
            r.is_fresh(start, end, config.grid_size as nat),
    {
        let n = config.grid_size;
        let mut visited = unmarked(n);
        let mut queue: VecDeque<usize> = VecDeque::new();
        let mut finished = true;
        if start < n && end < n {
            visited.set(start, true);
            queue.push_back(start);
            finished = false;
            assert(visited@ =~= Seq::new(n as nat, |i: int| i == start));
            assert(queue@ =~= seq![start]);
        } else {
            assert(queue@ =~= Seq::<usize>::empty());
        }
        let r = Solver {
            start,
            end,
            queue,
            visited,
            path: unlinked(n),
            path_pos: end,
            final_path: Vec::new(),
            found: false,
            finished,
        };
        assert(r.final_path@ =~= Seq::<usize>::empty());
        r
    }

    /// Expands the cell at the front of the queue: each neighbour behind an open
    /// passage that is not yet visited is visited, gets that cell as parent and
    /// joins the queue, until the target turns up, which ends the search.
    /// An empty queue ends the search with nothing found. Outside a search nothing changes.
    pub fn step(&mut self, grid: &Vec<Cell>, config: &GridConfig)
        requires
            old(self).wf(),
            config.wf(),
            grid@.len() == config.grid_size,
            old(self).num_cells() == config.grid_size,
        ensures
            final(self).wf(),
            old(self).stepped(*final(self), grid@, *config),
    {
        if self.found || self.finished {
            return;
        }
        let popped = self.queue.pop_front();
        let cell = match popped {
            Some(c) => c,
            None => {
                self.finished = true;
                return;
            },
        };
        let ghost old_visited = self.visited@;
        let ghost old_path = self.path@;
        let ghost rest = self.queue@;
        let ghost pred = unvisited(old_visited);
        let sides = solver_sides(cell, config, grid);
        let ghost fresh = sides@.filter(pred);
        let mut k: usize = 0;
        while k < sides.len() && !self.found
            invariant
                self.wf(),
                config.wf(),
                k <= sides@.len(),
                sides@ == open_neighbors(grid@, *config, cell as int),
                sides@.no_duplicates(),
                forall|j: int| 0 <= j < sides@.len() ==> #[trigger] sides@[j] < config.grid_size,
                self.num_cells() == config.grid_size,
                old_visited.len() == config.grid_size,
                fresh == sides@.filter(pred),
                pred == unvisited(old_visited),
                self.start == old(self).start,
                self.end == old(self).end,
                self.path_pos == old(self).path_pos,
                self.final_path@ == old(self).final_path@,
                !self.finished,
                !self.found ==> {
                    let got = sides@.take(k as int).filter(pred);
                    &&& self.visited@ == mark_visited(old_visited, got)
                    &&& self.path@ == link_parents(old_path, got, cell)
                    &&& self.queue@ == rest + got
                    &&& !got.contains(self.end)
                },
                self.found ==> {
                    &&& fresh.contains(self.end)
                    &&& self.visited@ == mark_visited(old_visited, through_first(fresh, self.end))
                    &&& self.path@ == link_parents(old_path, through_first(fresh, self.end), cell)
                    &&& self.queue@ == Seq::<usize>::empty()
                },
            decreases sides@.len() - k,
        {
            let n = sides[k];
            let ghost got = sides@.take(k as int).filter(pred);
            proof {
                lemma_take_filter_push(sides@, pred, k as int);
                assert(!got.contains(n)) by {
                    if got.contains(n) {
                        got.lemma_filter_contains_rev(pred, n);
                        lemma_filter_source(sides@.take(k as int), pred, n);
                        let j = choose|j: int| 0 <= j < k && sides@[j] == n;
                        assert(sides@[j] == sides@[k as int]);
                    }
                }
                assert(self.visited@[n as int] == old_visited[n as int]);
            }
            if !self.visited[n] {
                self.visited.set(n, true);
                self.path.set(n, Some(cell));
                proof {
                    lemma_push_contains(got, n);
                    assert(self.visited@ =~= mark_visited(old_visited, got.push(n)));
                    assert(self.path@ =~= link_parents(old_path, got.push(n), cell));
                }
                if n == self.end {
                    self.found = true;
                    self.queue.clear();
                    proof {
                        lemma_split_filter(sides@, pred, k as int);
                        lemma_through_first_append(got, seq![n].add(sides@.skip(k + 1).filter(pred)), n);
                        assert(seq![n].add(sides@.skip(k + 1).filter(pred)).drop_first() =~= sides@.skip(k + 1).filter(pred));
                        assert(got + seq![n] =~= got.push(n));
                        assert(fresh =~= got + (seq![n] + sides@.skip(k + 1).filter(pred)));
                        assert(fresh[got.len() as int] == n);
                    }
                } else {
                    self.queue.push_back(n);
                    proof {
                        assert(!got.push(n).contains(self.end)) by {
                            if got.push(n).contains(self.end) {
                                let j = choose|j: int| 0 <= j < got.push(n).len() && got.push(n)[j] == self.end;
                                if j < got.len() {
                                    assert(got.contains(self.end));
                                }
                            }
                        }
                        assert(self.queue@ =~= rest + got.push(n));
                    }
                }
            }
            k = k + 1;
        }
        proof {
            if !self.found {
                assert(sides@.take(sides@.len() as int) =~= sides@);
                lemma_through_first_append(fresh, Seq::empty(), self.end);
                assert(fresh + Seq::<usize>::empty() =~= fresh);
            }
        }
    }

    /// Follows one parent link back from the current position towards the start,
    /// recording the cell it reaches; the walk is done once it reaches a cell
    /// without a parent. Only acts once the target has been found.
    pub fn reconstruction_step(&mut self)
        requires
            old(self).wf(),
        ensures
            final(self).wf(),
            old(self).walked_back(*final(self)),
    {
        if !self.found || self.finished {
            return;
        }
        match self.path[self.path_pos] {
            Some(p) => {
                self.path_pos = p;
                self.final_path.push(p);
                if self.path[p].is_none() {
                    self.finished = true;
                }
            },
            None => {
                self.finished = true;
            },
        }
    }

    /// Drops whatever search was under way and starts a new one from `start` to `end`.
    pub fn redo(&mut self, start: usize, end: usize)
        requires
            old(self).wf(),
        ensures
            final(self).wf(),
            final(self).is_fresh(start, end, old(self).num_cells()),
    {
        let n = self.visited.len();
        self.queue.clear();
        let mut i: usize = 0;
        while i < n
            invariant
                n == self.visited@.len(),
                n == old(self).visited@.len(),
                n == self.path@.len(),
                i <= n,
                self.queue@ == Seq::<usize>::empty(),
                forall|j: int| 0 <= j < i ==> !self.visited@[j],
                forall|j: int| 0 <= j < i ==> self.path@[j] is None,
            decreases n - i,
        {
            self.visited.set(i, false);
            self.path.set(i, None);
            i = i + 1;
        }
        self.final_path.clear();
        self.start = start;
        self.end = end;
        self.path_pos = end;
        self.found = false;
        self.finished = true;
        assert(self.path@ =~= Seq::new(n as nat, |i: int| None::<usize>));
        if start < n && end < n {
            self.visited.set(start, true);
            self.queue.push_back(start);
            self.finished = false;
            assert(self.visited@ =~= Seq::new(n as nat, |i: int| i == start));
            assert(self.queue@ =~= seq![start]);
        } else {
            assert(self.visited@ =~= Seq::new(n as nat, |i: int| false));
        }
        assert(self.final_path@ =~= Seq::<usize>::empty());
    }
}

/// The cells joined to `pos` by an open passage, in the order left, right, up, down.
pub fn solver_sides(pos: usize, config: &GridConfig, grid: &Vec<Cell>) -> (r: Vec<usize>)
    requires
        config.wf(),
        pos < config.grid_size,
        grid@.len() == config.grid_size,
    ensures
        r@ == open_neighbors(grid@, *config, pos as int),
        r@.no_duplicates(),
        forall|j: int| 0 <= j < r@.len() ==> #[trigger] r@[j] < config.grid_size,
{
    let mut neighbours: Vec<usize> = Vec::new();
    let l = open_side(pos, config, grid, Direction::Left);
    let r = open_side(pos, config, grid, Direction::Right);
    let u = open_side(pos, config, grid, Direction::Up);
    let d = open_side(pos, config, grid, Direction::Down);
    if let Some(j) = l {
        neighbours.push(j);
    }
    if let Some(j) = r {
        neighbours.push(j);
    }
    if let Some(j) = u {
        neighbours.push(j);
    }
    if let Some(j) = d {
        neighbours.push(j);
    }
    proof {
        let c = *config;
        let i = pos as int;
        lemma_coords(c, i);
        assert(neighbours@ =~= open_neighbors(grid@, c, i));
        assert forall|a: int, b: int|
            0 <= a < neighbours@.len() && 0 <= b < neighbours@.len() && a != b implies neighbours@[a]
                != neighbours@[b] by {
            if c.width() == 1 {
                assert(c.col(i) == 0);
            }
        }
    }
    neighbours
}

/// The neighbour of `pos` in direction `d` when an open passage leads there.
fn open_side(pos: usize, config: &GridConfig, grid: &Vec<Cell>, d: Direction) -> (r: Option<usize>)
    requires
        config.wf(),
        pos < config.grid_size,
        grid@.len() == config.grid_size,
    ensures
        r is Some <==> passage(grid@, *config, pos as int, d),
        r matches Some(j) ==> j == neighbor_of(*config, pos as int, d).unwrap() && j
            < config.grid_size,
{
    match neighbor(config, pos, d) {
        Some(j) => if grid[pos].has_wall(d) {
            None
        } else {
            Some(j)
        },
        None => None,
    }
}


fn unlinked(n: usize) -> (r: Vec<Option<usize>>)
    ensures
        r@ == Seq::new(n as nat, |i: int| None::<usize>),
{
    let mut v: Vec<Option<usize>> = Vec::new();
    while v.len() < n
        invariant
            v@.len() <= n,
            forall|j: int| 0 <= j < v@.len() ==> v@[j] is None,
        decreases n - v@.len(),
    {
        v.push(None);
    }
    assert(v@ =~= Seq::new(n as nat, |i: int| None::<usize>));
    v
}

proof fn lemma_take_filter_push(s: Seq<usize>, pred: spec_fn(usize) -> bool, k: int)
    requires
        0 <= k < s.len(),
    ensures
        s.take(k + 1).filter(pred) == if pred(s[k]) {
            s.take(k).filter(pred).push(s[k])
        } else {
            s.take(k).filter(pred)
        },
{
    assert(s.take(k + 1) =~= s.take(k).push(s[k]));
    s.take(k).lemma_filter_push(s[k], pred);
}

proof fn lemma_push_contains(s: Seq<usize>, n: usize)
    ensures
        forall|x: usize| #[trigger] s.push(n).contains(x) <==> s.contains(x) || x == n,
{
    assert forall|x: usize| #[trigger] s.push(n).contains(x) <==> s.contains(x) || x == n by {
        if s.contains(x) {
            let j = choose|j: int| 0 <= j < s.len() && s[j] == x;
            assert(s.push(n)[j] == x);
        }
        if x == n {
            assert(s.push(n)[s.len() as int] == x);
        }
        if s.push(n).contains(x) && x != n {
            let j = choose|j: int| 0 <= j < s.push(n).len() && s.push(n)[j] == x;
            assert(s[j] == x);
        }
    }
}

proof fn lemma_filter_source(s: Seq<usize>, pred: spec_fn(usize) -> bool, x: usize)
    requires
        s.filter(pred).contains(x),
    ensures
        exists|j: int| 0 <= j < s.len() && s[j] == x,
{
    s.lemma_filter_contains_rev(pred, x);
}

proof fn lemma_split_filter(s: Seq<usize>, pred: spec_fn(usize) -> bool, k: int)
    requires
        0 <= k < s.len(),
        pred(s[k]),
    ensures
        s.filter(pred) == s.take(k).filter(pred) + (seq![s[k]] + s.skip(k + 1).filter(pred)),
{
    assert(s =~= s.take(k + 1) + s.skip(k + 1));
    Seq::filter_distributes_over_add(s.take(k + 1), s.skip(k + 1), pred);
    lemma_take_filter_push(s, pred, k);
    assert(s.take(k).filter(pred).push(s[k]) + s.skip(k + 1).filter(pred) =~= s.take(k).filter(
        pred,
    ) + (seq![s[k]] + s.skip(k + 1).filter(pred)));
}

proof fn lemma_through_first_append(a: Seq<usize>, b: Seq<usize>, t: usize)
    requires
        !a.contains(t),
    ensures
        through_first(a + b, t) == a + through_first(b, t),
    decreases a.len(),
{
    if a.len() == 0 {
        assert(a + b =~= b);
        assert(a + through_first(b, t) =~= through_first(b, t));
    } else {
        assert(a[0] != t);
        assert(!a.drop_first().contains(t)) by {
            if a.drop_first().contains(t) {
                let j = choose|j: int| 0 <= j < a.drop_first().len() && a.drop_first()[j] == t;
                assert(a[j + 1] == t);
            }
        }
        lemma_through_first_append(a.drop_first(), b, t);
        assert((a + b).drop_first() =~= a.drop_first() + b);
        assert(seq![a[0]] + (a.drop_first() + through_first(b, t)) =~= a + through_first(b, t));
    }
}

} // verus!

use vstd::prelude::*;

use crate::grid::{
    all_connected, connected, count_marked, is_walk, lemma_connected_refl, lemma_connected_trans,
    lemma_connected_via, lemma_count_bounds, lemma_count_mark, lemma_count_none,
    lemma_linked_connected, lemma_neighbor, lemma_set_passage_consistent, lemma_walk_after_close,
    lemma_walk_kept, lemma_walk_opened, lemma_with_passage_wall_walls, linked, neighbor,
    neighbor_of, passage, set_passage_wall, unmarked, walls_consistent, with_passage_wall, Cell,
    Direction, GridConfig,
};
use crate::maze::{closed_grid, fuse_protected, fusible};

verus! {

/// `p` is a walk through open passages that stays on allowed cells.
pub open spec fn allowed_walk(cells: Seq<Cell>, c: GridConfig, allowed: Seq<bool>, p: Seq<int>) -> bool {
    &&& is_walk(cells, c, p)
    &&& forall|k: int| 0 <= k < p.len() ==> allowed[#[trigger] p[k]]
}

/// `v` can be reached from `s` through open passages without leaving the allowed cells.
pub open spec fn reachable_within(
    cells: Seq<Cell>,
    c: GridConfig,
    allowed: Seq<bool>,
    s: int,
    v: int,
) -> bool {
    exists|p: Seq<int>| allowed_walk(cells, c, allowed, p) && p[0] == s && p.last() == v
}

/// The marked cells are closed under open passages to allowed cells.
pub open spec fn closed_within(cells: Seq<Cell>, c: GridConfig, allowed: Seq<bool>, r: Seq<bool>) -> bool {
    forall|v: int, d: Direction|
        0 <= v < c.size() && r[v] && #[trigger] passage(cells, c, v, d) && allowed[neighbor_of(
            c,
            v,
            d,
        ).unwrap()] ==> r[neighbor_of(c, v, d).unwrap()]
}

proof fn lemma_closed_holds_walk(
    cells: Seq<Cell>,
    c: GridConfig,
    allowed: Seq<bool>,
    r: Seq<bool>,
    p: Seq<int>,
)
    requires
        closed_within(cells, c, allowed, r),
        allowed_walk(cells, c, allowed, p),
        r[p[0]],
    ensures
        r[p.last()],
    decreases p.len(),
{
    if p.len() > 1 {
        let q = p.drop_last();
        assert forall|k: int| 0 <= k < q.len() - 1 implies linked(cells, c, #[trigger] q[k], q[k + 1]) by {
            assert(q[k] == p[k] && q[k + 1] == p[k + 1]);
        }
        assert forall|k: int| 0 <= k < q.len() implies allowed[#[trigger] q[k]] by {
            assert(q[k] == p[k]);
        }
        lemma_closed_holds_walk(cells, c, allowed, r, q);
        let a = p[p.len() - 2];
        let b = p.last();
        assert(linked(cells, c, a, b));
        assert(allowed[b]);
    }
}

pub proof fn lemma_allowed_walk_push(cells: Seq<Cell>, c: GridConfig, allowed: Seq<bool>, p: Seq<int>, v: int, d: Direction)
    requires
        c.wf(),
        allowed_walk(cells, c, allowed, p),
        p.last() == v,
        passage(cells, c, v, d),
        allowed[neighbor_of(c, v, d).unwrap()],
    ensures
        allowed_walk(cells, c, allowed, p.push(neighbor_of(c, v, d).unwrap())),
        p.push(neighbor_of(c, v, d).unwrap())[0] == p[0],
{
    let w = neighbor_of(c, v, d).unwrap();
    lemma_neighbor(c, v, d);
    let q = p.push(w);
    assert(linked(cells, c, v, w));
    assert forall|k: int| 0 <= k < q.len() - 1 implies linked(cells, c, #[trigger] q[k], q[k + 1]) by {
        if k < p.len() - 1 {
            assert(q[k] == p[k] && q[k + 1] == p[k + 1]);
        }
    }
    assert forall|k: int| 0 <= k < q.len() implies allowed[#[trigger] q[k]] by {
        if k < p.len() {
            assert(q[k] == p[k]);
        }
    }
    assert forall|k: int| 0 <= k < q.len() implies 0 <= #[trigger] q[k] < c.size() by {
        if k < p.len() {
            assert(q[k] == p[k]);
        }
    }
}

/// Search state: `seen` marks what `queue` holds, each cell once, and every
/// marked cell is reachable from `s`.
#[verifier::opaque]
spec fn search_inv(
    cells: Seq<Cell>,
    c: GridConfig,
    allowed: Seq<bool>,
    s: int,
    seen: Seq<bool>,
    queue: Seq<usize>,
) -> bool {
    let n = c.size();
    &&& seen.len() == n
    &&& queue.len() == count_marked(seen)
    &&& queue.no_duplicates()
    &&& forall|k: int| 0 <= k < queue.len() ==> #[trigger] queue[k] < n && seen[queue[k] as int]
    &&& forall|v: int| 0 <= v < n && #[trigger] seen[v] ==> queue.contains(v as usize)
    &&& forall|v: int| 0 <= v < n && #[trigger] seen[v] ==> reachable_within(cells, c, allowed, s, v)
}

/// Marks and queues the neighbour of `v` in direction `d` when an open passage
/// leads to it, it is allowed, and it is not yet marked.
fn visit_side(
    cells: &Vec<Cell>,
    config: &GridConfig,
    allowed: &Vec<bool>,
    seen: &mut Vec<bool>,
    queue: &mut Vec<usize>,
    v: usize,
    d: Direction,
    Ghost(s): Ghost<int>,
)
    requires
        config.wf(),
        cells@.len() == config.grid_size,
        allowed@.len() == config.grid_size,
        v < config.grid_size,
        old(seen)@[v as int],
        search_inv(cells@, *config, allowed@, s, old(seen)@, old(queue)@),
    ensures
        search_inv(cells@, *config, allowed@, s, final(seen)@, final(queue)@),
        final(queue)@.len() >= old(queue)@.len(),
        forall|k: int| 0 <= k < old(queue)@.len() ==> #[trigger] final(queue)@[k] == old(queue)@[k],
        forall|w: int| 0 <= w < config.grid_size && #[trigger] old(seen)@[w] ==> final(seen)@[w],
        passage(cells@, *config, v as int, d) && allowed@[neighbor_of(*config, v as int, d).unwrap()]
            ==> final(seen)@[neighbor_of(*config, v as int, d).unwrap()],
{
    let ghost c = *config;
    proof {
        reveal(search_inv);
    }
    match neighbor(config, v, d) {
        Some(w) => {
            if !cells[v].has_wall(d) && allowed[w] && !seen[w] {
                let ghost old_queue = queue@;
                let ghost old_seen = seen@;
                proof {
                    lemma_count_mark(seen@, w as int);
                    assert(old_seen[v as int]);
                    let p = choose|p: Seq<int>|
                        allowed_walk(cells@, c, allowed@, p) && p[0] == s && p.last() == v;
                    lemma_allowed_walk_push(cells@, c, allowed@, p, v as int, d);
                    assert(p.push(w as int).last() == w);
                    assert(reachable_within(cells@, c, allowed@, s, w as int));
                    assert(!queue@.contains(w)) by {
                        if queue@.contains(w) {
                            let k = choose|k: int| 0 <= k < old_queue.len() && old_queue[k] == w;
                        }
                    }
                }
                seen.set(w, true);
                queue.push(w);
                proof {
                    assert(queue@[old_queue.len() as int] == w);
                    assert forall|x: int| 0 <= x < c.size() && #[trigger] seen@[x] implies queue@.contains(x as usize) by {
                        if x != w {
                            assert(old_seen[x]);
                            let k = choose|k: int| 0 <= k < old_queue.len() && old_queue[k] == x as usize;
                            assert(queue@[k] == x as usize);
                        }
                    }
                    assert forall|k: int| 0 <= k < queue@.len() implies #[trigger] queue@[k] < c.size() && seen@[queue@[k] as int] by {
                        if k < old_queue.len() {
                            assert(queue@[k] == old_queue[k]);
                        }
                    }
                    assert forall|x: int| 0 <= x < c.size() && #[trigger] seen@[x] implies reachable_within(cells@, c, allowed@, s, x) by {
                        if x != w {
                            assert(old_seen[x]);
                        }
                    }
                }
            }
        },
        None => {},
    }
}

/// The cells reachable from `s` through open passages without leaving the allowed cells.
pub fn reach_within(cells: &Vec<Cell>, config: &GridConfig, allowed: &Vec<bool>, s: usize) -> (r: Vec<bool>)
    requires
        config.wf(),
        cells@.len() == config.grid_size,
        allowed@.len() == config.grid_size,
        s < config.grid_size,
        allowed@[s as int],
    ensures
        r@.len() == config.grid_size,
        forall|v: int|
            0 <= v < config.grid_size ==> #[trigger] r@[v] == reachable_within(
                cells@,
                *config,
                allowed@,
                s as int,
                v,
            ),
{
    let ghost c = *config;
    let n = config.grid_size;
    let mut seen = unmarked(n);
    seen.set(s, true);
    let mut queue: Vec<usize> = Vec::new();
    queue.push(s);
    proof {
        reveal(search_inv);
        let p = seq![s as int];
        assert(allowed_walk(cells@, c, allowed@, p) && p[0] == s && p.last() == s);
        assert(seen@ =~= Seq::new(n as nat, |j: int| false).update(s as int, true));
        lemma_count_mark(Seq::new(n as nat, |j: int| false), s as int);
        lemma_count_none(n as nat);
        assert(queue@[0] == s);
    }
    let mut head: usize = 0;
    while head < queue.len()
        invariant
            c == *config,
            c.wf(),
            n == c.size(),
            cells@.len() == n,
            allowed@.len() == n,
            s < n,
            seen@.len() == n,
            seen@[s as int],
            head <= queue@.len(),
            search_inv(cells@, c, allowed@, s as int, seen@, queue@),
            forall|k: int, d: Direction|
                0 <= k < head && #[trigger] passage(cells@, c, queue@[k] as int, d) && allowed@[neighbor_of(
                    c,
                    queue@[k] as int,
                    d,
                ).unwrap()] ==> seen@[neighbor_of(c, queue@[k] as int, d).unwrap()],
        decreases n - head,
    {
        proof {
            reveal(search_inv);
            lemma_count_bounds(seen@);
        }
        let v = queue[head];
        let ghost q0 = queue@;
        let ghost s0 = seen@;
        visit_side(cells, config, allowed, &mut seen, &mut queue, v, Direction::Up, Ghost(s as int));
        let ghost s1 = seen@;
        visit_side(cells, config, allowed, &mut seen, &mut queue, v, Direction::Down, Ghost(s as int));
        let ghost s2 = seen@;
        visit_side(cells, config, allowed, &mut seen, &mut queue, v, Direction::Left, Ghost(s as int));
        let ghost s3 = seen@;
        visit_side(cells, config, allowed, &mut seen, &mut queue, v, Direction::Right, Ghost(s as int));
        proof {
            reveal(search_inv);
            assert forall|k: int, d: Direction|
                0 <= k < head + 1 && #[trigger] passage(cells@, c, queue@[k] as int, d) && allowed@[neighbor_of(
                    c,
                    queue@[k] as int,
                    d,
                ).unwrap()] implies seen@[neighbor_of(c, queue@[k] as int, d).unwrap()] by {
                assert(queue@[k] == q0[k]);
                if k < head {
                    lemma_neighbor(c, q0[k] as int, d);
                    assert(s0[neighbor_of(c, q0[k] as int, d).unwrap()]);
                    assert(s1[neighbor_of(c, q0[k] as int, d).unwrap()]);
                    assert(s2[neighbor_of(c, q0[k] as int, d).unwrap()]);
                    assert(s3[neighbor_of(c, q0[k] as int, d).unwrap()]);
                } else {
                    lemma_neighbor(c, v as int, d);
                    let w = neighbor_of(c, v as int, d).unwrap();
                    assert(s1[w] ==> s2[w]);
                    assert(s2[w] ==> s3[w]);
                    assert(s3[w] ==> seen@[w]);
                }
            }
            lemma_count_bounds(seen@);
        }
        head = head + 1;
    }
    proof {
        reveal(search_inv);
        assert(closed_within(cells@, c, allowed@, seen@)) by {
            assert forall|v: int, d: Direction|
                0 <= v < c.size() && seen@[v] && #[trigger] passage(cells@, c, v, d) && allowed@[neighbor_of(
                    c,
                    v,
                    d,
                ).unwrap()] implies seen@[neighbor_of(c, v, d).unwrap()] by {
                assert(queue@.contains(v as usize));
                let k = choose|k: int| 0 <= k < queue@.len() && queue@[k] == v as usize;
                assert(passage(cells@, c, queue@[k] as int, d));
            }
        }
        assert forall|v: int| 0 <= v < n implies #[trigger] seen@[v] == reachable_within(
            cells@,
            c,
            allowed@,
            s as int,
            v,
        ) by {
            if reachable_within(cells@, c, allowed@, s as int, v) {
                let p = choose|p: Seq<int>| allowed_walk(cells@, c, allowed@, p) && p[0] == s && p.last() == v;
                lemma_closed_holds_walk(cells@, c, allowed@, seen@, p);
            }
        }
    }
    seen
}

/// The walls that the protected cells alone would give: open exactly between two adjacent protected cells.
pub open spec fn protected_walls(protected: Seq<bool>, c: GridConfig) -> Seq<Cell> {
    Seq::new(
        c.size() as nat,
        |k: int|
            Cell {
                up: !fusible(protected, c, k, Direction::Up),
                down: !fusible(protected, c, k, Direction::Down),
                left: !fusible(protected, c, k, Direction::Left),
                right: !fusible(protected, c, k, Direction::Right),
            },
    )
}

/// The protected cells connected to `s` by steps between adjacent protected cells.
pub open spec fn component(protected: Seq<bool>, c: GridConfig, s: int) -> Seq<bool> {
    Seq::new(
        c.size() as nat,
        |v: int| reachable_within(protected_walls(protected, c), c, protected, s, v),
    )
}

/// The grid whose only open passages join adjacent protected cells.
fn protected_maze(protected: &Vec<bool>, config: &GridConfig) -> (r: Vec<Cell>)
    requires
        config.wf(),
        protected@.len() == config.grid_size,
    ensures
        r@ == protected_walls(protected@, *config),
{
    let ghost c = *config;
    let mut cells = closed_grid(config.grid_size);
    proof {
        assert forall|i: int, d: Direction| 0 <= i < c.size() implies match #[trigger] neighbor_of(
            c,
            i,
            d,
        ) {
            Some(j) => cells@[i].wall(d) == cells@[j].wall(d.opposite_spec()),
            None => cells@[i].wall(d),
        } by {
            if neighbor_of(c, i, d) is Some {
                lemma_neighbor(c, i, d);
            }
        }
    }
    let ghost start = cells@;
    fuse_protected(&mut cells, protected, config);
    proof {
        assert forall|k: int| 0 <= k < c.size() implies cells@[k] == protected_walls(protected@, c)[k] by {
            assert(start[k].closed());
            assert(cells@[k].wall(Direction::Up) == !fusible(protected@, c, k, Direction::Up));
            assert(cells@[k].wall(Direction::Down) == !fusible(protected@, c, k, Direction::Down));
            assert(cells@[k].wall(Direction::Left) == !fusible(protected@, c, k, Direction::Left));
            assert(cells@[k].wall(Direction::Right) == !fusible(protected@, c, k, Direction::Right));
        }
        assert(cells@ =~= protected_walls(protected@, c));
    }
    cells
}

/// Number of marked entries.
pub fn count_true(v: &Vec<bool>) -> (r: usize)
    ensures
        r == count_marked(v@),
{
    let mut k: usize = 0;
    let mut total: usize = 0;
    while k < v.len()
        invariant
            k <= v@.len(),
            total == count_marked(v@.take(k as int)),
            total <= k,
        decreases v@.len() - k,
    {
        proof {
            lemma_count_take(v@, k as int);
        }
        if v[k] {
            total = total + 1;
        }
        k = k + 1;
    }
    assert(v@.take(v@.len() as int) =~= v@);
    total
}

proof fn lemma_count_take(v: Seq<bool>, k: int)
    requires
        0 <= k < v.len(),
    ensures
        count_marked(v.take(k + 1)) == count_marked(v.take(k)) + if v[k] {
            1int
        } else {
            0int
        },
{
    assert(v.take(k + 1).drop_last() =~= v.take(k));
}

/// The main path: the largest component of protected cells, the one found
/// first from the lowest index among equals; nothing when no cell is protected.
pub fn main_component(protected: &Vec<bool>, config: &GridConfig) -> (r: Vec<bool>)
    requires
        config.wf(),
        protected@.len() == config.grid_size,
    ensures
        r@.len() == config.grid_size,
        (forall|k: int| 0 <= k < config.grid_size ==> !protected@[k]) ==> (forall|k: int|
            0 <= k < config.grid_size ==> !r@[k]),
        (exists|k: int| 0 <= k < config.grid_size && protected@[k]) ==> exists|s: int|
            0 <= s < config.grid_size && protected@[s] && r@ == component(protected@, *config, s)
                && (forall|t: int|
                0 <= t < config.grid_size && protected@[t] ==> count_marked(
                    #[trigger] component(protected@, *config, t),
                ) <= count_marked(r@)) && (forall|t: int|
                0 <= t < s && protected@[t] ==> count_marked(
                    #[trigger] component(protected@, *config, t),
                ) < count_marked(r@)),
{
    let ghost c = *config;
    let n = config.grid_size;
    let maze = protected_maze(protected, config);
    let mut best = unmarked(n);
    let mut best_size: usize = 0;
    let mut found = false;
    let ghost mut best_s: int = 0;
    let mut s: usize = 0;
    while s < n
        invariant
            c == *config,
            c.wf(),
            n == c.size(),
            s <= n,
            protected@.len() == n,
            maze@ == protected_walls(protected@, c),
            best@.len() == n,
            found <==> exists|t: int| 0 <= t < s && protected@[t],
            !found ==> forall|k: int| 0 <= k < n ==> !best@[k],
            found ==> {
                &&& 0 <= best_s < s
                &&& protected@[best_s]
                &&& best@ == component(protected@, c, best_s)
                &&& best_size == count_marked(best@)
                &&& forall|t: int|
                    0 <= t < s && protected@[t] ==> count_marked(
                        #[trigger] component(protected@, c, t),
                    ) <= best_size
                &&& forall|t: int|
                    0 <= t < best_s && protected@[t] ==> count_marked(
                        #[trigger] component(protected@, c, t),
                    ) < best_size
            },
        decreases n - s,
    {
        if protected[s] {
            let comp = reach_within(&maze, config, protected, s);
            proof {
                assert(comp@ =~= component(protected@, c, s as int));
            }
            let size = count_true(&comp);
            if !found || size > best_size {
                best = comp;
                best_size = size;
                found = true;
                proof {
                    best_s = s as int;
                }
            }
        }
        s = s + 1;
    }
    best
}

/// Number of protected neighbours of cell `k` (zero for an unprotected cell).
pub open spec fn protected_degree(protected: Seq<bool>, c: GridConfig, k: int) -> int {
    (if fusible(protected, c, k, Direction::Up) { 1int } else { 0int }) + (if fusible(
        protected,
        c,
        k,
        Direction::Down,
    ) {
        1int
    } else {
        0int
    }) + (if fusible(protected, c, k, Direction::Left) { 1int } else { 0int }) + (if fusible(
        protected,
        c,
        k,
        Direction::Right,
    ) {
        1int
    } else {
        0int
    })
}

/// Marks the cells of `main` with exactly one protected neighbour: the ends of a simple path.
pub open spec fn path_ends(main: Seq<bool>, protected: Seq<bool>, c: GridConfig) -> Seq<bool> {
    Seq::new(main.len(), |k: int| main[k] && protected_degree(protected, c, k) == 1)
}

/// Whether the neighbour of `k` in direction `d` exists and is protected.
fn protected_side(protected: &Vec<bool>, config: &GridConfig, k: usize, d: Direction) -> (r: bool)
    requires
        config.wf(),
        protected@.len() == config.grid_size,
        k < config.grid_size,
        protected@[k as int],
    ensures
        r == fusible(protected@, *config, k as int, d),
{
    match neighbor(config, k, d) {
        Some(j) => protected[j],
        None => false,
    }
}

/// Number of cells of `main` with exactly one protected neighbour.
pub fn count_ends(main: &Vec<bool>, protected: &Vec<bool>, config: &GridConfig) -> (r: usize)
    requires
        config.wf(),
        main@.len() == config.grid_size,
        protected@.len() == config.grid_size,
    ensures
        r == count_marked(path_ends(main@, protected@, *config)),
{
    let ghost c = *config;
    let ghost ends = path_ends(main@, protected@, c);
    let n = config.grid_size;
    let mut k: usize = 0;
    let mut total: usize = 0;
    while k < n
        invariant
            c == *config,
            c.wf(),
            n == c.size(),
            main@.len() == n,
            protected@.len() == n,
            ends == path_ends(main@, protected@, c),
            k <= n,
            total == count_marked(ends.take(k as int)),
            total <= k,
        decreases n - k,
    {
        proof {
            lemma_count_take(ends, k as int);
        }
        if main[k] && protected[k] {
            let mut degree: usize = 0;
            if protected_side(protected, config, k, Direction::Up) {
                degree = degree + 1;
            }
            if protected_side(protected, config, k, Direction::Down) {
                degree = degree + 1;
            }
            if protected_side(protected, config, k, Direction::Left) {
                degree = degree + 1;
            }
            if protected_side(protected, config, k, Direction::Right) {
                degree = degree + 1;
            }
            if degree == 1 {
                total = total + 1;
            }
        }
        k = k + 1;
    }
    assert(ends.take(n as int) =~= ends);
    total
}

/// The cells outside `main`.
pub open spec fn outside(main: Seq<bool>) -> Seq<bool> {
    Seq::new(main.len(), |k: int| !main[k])
}

/// From `u`, off the main path, a walk through cells off the main path ends
/// next to an open passage into a main-path cell other than `m`.
pub open spec fn escapes(cells: Seq<Cell>, c: GridConfig, main: Seq<bool>, u: int, m: int) -> bool {
    exists|v: int, d: Direction|
        0 <= v < c.size() && #[trigger] reachable_within(cells, c, outside(main), u, v) && #[trigger] passage(cells, c, v, d)
            && main[neighbor_of(c, v, d).unwrap()] && neighbor_of(c, v, d).unwrap() != m
}

fn complement(v: &Vec<bool>) -> (r: Vec<bool>)
    ensures
        r@ == outside(v@),
{
    let mut r: Vec<bool> = Vec::new();
    let mut k: usize = 0;
    while k < v.len()
        invariant
            k <= v@.len(),
            r@.len() == k,
            forall|j: int| 0 <= j < k ==> r@[j] == !v@[j],
        decreases v@.len() - k,
    {
        r.push(!v[k]);
        k = k + 1;
    }
    assert(r@ =~= outside(v@));
    r
}

/// Whether the open passage from main-path cell `m` into `u` is a shortcut:
/// a search from `u` that keeps off the main path meets another main-path cell.
pub fn is_shortcut(
    cells: &Vec<Cell>,
    config: &GridConfig,
    main: &Vec<bool>,
    off_main: &Vec<bool>,
    u: usize,
    m: usize,
) -> (r: bool)
    requires
        config.wf(),
        cells@.len() == config.grid_size,
        main@.len() == config.grid_size,
        off_main@ == outside(main@),
        u < config.grid_size,
        !main@[u as int],
    ensures
        r == escapes(cells@, *config, main@, u as int, m as int),
{
    let ghost c = *config;
    let n = config.grid_size;
    let region = reach_within(cells, config, off_main, u);
    let mut v: usize = 0;
    while v < n
        invariant
            c == *config,
            c.wf(),
            n == c.size(),
            v <= n,
            cells@.len() == n,
            main@.len() == n,
            off_main@ == outside(main@),
            region@.len() == n,
            forall|x: int| 0 <= x < n ==> #[trigger] region@[x] == reachable_within(cells@, c, off_main@, u as int, x),
            forall|x: int, d: Direction|
                0 <= x < v && #[trigger] reachable_within(cells@, c, outside(main@), u as int, x) && #[trigger] passage(cells@, c, x, d)
                    ==> !(main@[neighbor_of(c, x, d).unwrap()] && neighbor_of(c, x, d).unwrap() != m),
        decreases n - v,
    {
        if region[v] {
            let mut e: usize = 0;
            while e < 4
                invariant
                    c == *config,
                    c.wf(),
                    n == c.size(),
                    v < n,
                    e <= 4,
                    cells@.len() == n,
                    main@.len() == n,
                    region@[v as int],
                    reachable_within(cells@, c, outside(main@), u as int, v as int),
                    forall|d: Direction|
                        #[trigger] d.code() < e && passage(cells@, c, v as int, d) ==> !(main@[neighbor_of(c, v as int, d).unwrap()]
                            && neighbor_of(c, v as int, d).unwrap() != m),
                decreases 4 - e,
            {
                let d = Direction::from_index(e);
                match neighbor(config, v, d) {
                    Some(w) => {
                        if !cells[v].has_wall(d) && main[w] && w != m {
                            proof {
                                assert(passage(cells@, c, v as int, d));
                                assert(reachable_within(cells@, c, outside(main@), u as int, v as int));
                            }
                            return true;
                        }
                    },
                    None => {},
                }
                e = e + 1;
            }
            proof {
                assert forall|d: Direction| passage(cells@, c, v as int, d) implies !(main@[neighbor_of(c, v as int, d).unwrap()]
                    && neighbor_of(c, v as int, d).unwrap() != m) by {
                    assert(d.code() < 4);
                }
            }
        }
        v = v + 1;
    }
    false
}

/// Passages of `new` are passages of `old`.
pub open spec fn fewer_passages(new: Seq<Cell>, old: Seq<Cell>, c: GridConfig) -> bool {
    forall|k: int, e: Direction| #[trigger] passage(new, c, k, e) ==> passage(old, c, k, e)
}

/// With fewer open passages nothing new escapes.
pub proof fn lemma_escapes_fewer(new: Seq<Cell>, old: Seq<Cell>, c: GridConfig, main: Seq<bool>, u: int, m: int)
    requires
        fewer_passages(new, old, c),
        escapes(new, c, main, u, m),
    ensures
        escapes(old, c, main, u, m),
{
    let (v, d) = choose|v: int, d: Direction|
        0 <= v < c.size() && #[trigger] reachable_within(new, c, outside(main), u, v) && #[trigger] passage(new, c, v, d)
            && main[neighbor_of(c, v, d).unwrap()] && neighbor_of(c, v, d).unwrap() != m;
    let p = choose|p: Seq<int>| allowed_walk(new, c, outside(main), p) && p[0] == u && p.last() == v;
    lemma_walk_opened(new, old, c, p);
    assert(allowed_walk(old, c, outside(main), p));
    assert(reachable_within(old, c, outside(main), u, v));
    assert(passage(old, c, v, d));
}

/// No open passage from a main-path cell leads off the main path into a shortcut.
pub open spec fn no_shortcuts(cells: Seq<Cell>, c: GridConfig, main: Seq<bool>) -> bool {
    forall|m: int, d: Direction|
        0 <= m < c.size() && main[m] && #[trigger] passage(cells, c, m, d) && !main[neighbor_of(c, m, d).unwrap()]
            ==> !escapes(cells, c, main, neighbor_of(c, m, d).unwrap(), m)
}

/// The wall on side `e` of cell `k` separates a main-path cell from one off the main path.
pub open spec fn on_main_border(main: Seq<bool>, c: GridConfig, k: int, e: Direction) -> bool {
    neighbor_of(c, k, e) is Some && main[k] != main[neighbor_of(c, k, e).unwrap()]
}

/// Raises the wall from main-path cell `m` into `u` (its neighbour in direction `d`)
/// when the open passage there is a shortcut.
fn prune_side(
    cells: &mut Vec<Cell>,
    config: &GridConfig,
    main: &Vec<bool>,
    off_main: &Vec<bool>,
    m: usize,
    d: Direction,
)
    requires
        config.wf(),
        old(cells)@.len() == config.grid_size,
        walls_consistent(old(cells)@, *config),
        main@.len() == config.grid_size,
        off_main@ == outside(main@),
        m < config.grid_size,
    ensures
        final(cells)@ == old(cells)@ || ({
            &&& on_main_border(main@, *config, m as int, d)
            &&& main@[m as int]
            &&& passage(old(cells)@, *config, m as int, d)
            &&& escapes(old(cells)@, *config, main@, neighbor_of(*config, m as int, d).unwrap(), m as int)
            &&& final(cells)@ == with_passage_wall(old(cells)@, *config, m as int, d, true)
        }),
        main@[m as int] && passage(final(cells)@, *config, m as int, d) && !main@[neighbor_of(*config, m as int, d).unwrap()]
            ==> !escapes(final(cells)@, *config, main@, neighbor_of(*config, m as int, d).unwrap(), m as int),
{
    if !main[m] {
        return;
    }
    match neighbor(config, m, d) {
        Some(u) => {
            if !main[u] && !cells[m].has_wall(d) {
                if is_shortcut(cells, config, main, off_main, u, m) {
                    let ghost before = cells@;
                    proof {
                        lemma_with_passage_wall_walls(before, *config, m as int, d, true);
                    }
                    set_passage_wall(cells, config, m, d, u, true);
                    proof {
                        assert(cells@[m as int].wall(d));
                    }
                }
            }
        },
        None => {},
    }
}

/// Every main-path cell is reachable from `s` without leaving the main path.
pub open spec fn main_hub(cells: Seq<Cell>, c: GridConfig, main: Seq<bool>, s: int) -> bool {
    &&& 0 <= s < c.size()
    &&& main[s]
    &&& forall|x: int| 0 <= x < c.size() && #[trigger] main[x] ==> reachable_within(cells, c, main, s, x)
}

/// Raising the wall from main-path cell `m` into a shortcut keeps every cell
/// connected, and the main path reachable from within.
proof fn lemma_close_keeps_connected(
    before: Seq<Cell>,
    c: GridConfig,
    main: Seq<bool>,
    m: int,
    d: Direction,
    s: int,
)
    requires
        c.wf(),
        walls_consistent(before, c),
        main.len() == c.size(),
        0 <= m < c.size(),
        main[m],
        neighbor_of(c, m, d) is Some,
        !main[neighbor_of(c, m, d).unwrap()],
        escapes(before, c, main, neighbor_of(c, m, d).unwrap(), m),
        all_connected(before, c),
        main_hub(before, c, main, s),
    ensures
        all_connected(with_passage_wall(before, c, m, d, true), c),
        main_hub(with_passage_wall(before, c, m, d, true), c, main, s),
{
    let new = with_passage_wall(before, c, m, d, true);
    let u = neighbor_of(c, m, d).unwrap();
    lemma_neighbor(c, m, d);
    lemma_set_passage_consistent(before, c, m, d, true);
    lemma_with_passage_wall_walls(before, c, m, d, true);
    assert forall|x: int, e: Direction|
        #[trigger] passage(before, c, x, e) && main[x] == main[neighbor_of(c, x, e).unwrap()] implies passage(new, c, x, e) by {
        if neighbor_of(c, x, e) == Some(m) && e == d.opposite_spec() {
            lemma_neighbor(c, x, e);
        }
    }
    assert forall|x: int| 0 <= x < c.size() && #[trigger] main[x] implies reachable_within(new, c, main, s, x) by {
        let w = choose|w: Seq<int>| allowed_walk(before, c, main, w) && w[0] == s && w.last() == x;
        assert forall|k: int, e: Direction|
            0 <= k < w.len() - 1 && #[trigger] passage(before, c, w[k], e) && neighbor_of(c, w[k], e) == Some(
                w[k + 1],
            ) implies passage(new, c, w[k], e) by {
            assert(main[w[k]] && main[w[k + 1]]);
        }
        lemma_walk_kept(before, new, c, w);
    }
    let (v, d2) = choose|v: int, d2: Direction|
        0 <= v < c.size() && #[trigger] reachable_within(before, c, outside(main), u, v) && #[trigger] passage(
            before,
            c,
            v,
            d2,
        ) && main[neighbor_of(c, v, d2).unwrap()] && neighbor_of(c, v, d2).unwrap() != m;
    let m2 = neighbor_of(c, v, d2).unwrap();
    lemma_neighbor(c, v, d2);
    let w = choose|w: Seq<int>| allowed_walk(before, c, outside(main), w) && w[0] == u && w.last() == v;
    assert forall|k: int, e: Direction|
        0 <= k < w.len() - 1 && #[trigger] passage(before, c, w[k], e) && neighbor_of(c, w[k], e) == Some(
            w[k + 1],
        ) implies passage(new, c, w[k], e) by {
        assert(outside(main)[w[k]] && outside(main)[w[k + 1]]);
    }
    lemma_walk_kept(before, new, c, w);
    assert(connected(new, c, u, v));
    assert(!main[v]);
    assert(passage(new, c, v, d2));
    lemma_linked_connected(new, c, v, m2);
    let w1 = choose|w1: Seq<int>| allowed_walk(new, c, main, w1) && w1[0] == s && w1.last() == m2;
    let w2 = choose|w2: Seq<int>| allowed_walk(new, c, main, w2) && w2[0] == s && w2.last() == m;
    lemma_connected_via(new, c, s, m2, m);
    lemma_connected_trans(new, c, u, v, m2);
    lemma_connected_trans(new, c, u, m2, m);
    lemma_connected_refl(new, c, u);
    lemma_connected_via(new, c, u, m, u);
    assert forall|a: int, b: int| 0 <= a < c.size() && 0 <= b < c.size() implies #[trigger] connected(new, c, a, b) by {
        assert(connected(before, c, a, b));
        let p = choose|p: Seq<int>| is_walk(before, c, p) && p[0] == a && p.last() == b;
        lemma_walk_after_close(before, c, m, d, p);
    }
}

/// Raises every wall from the main path into a shortcut, one main-path cell
/// and direction at a time in index order, each search made on the walls as
/// they stand by then. Afterwards no open passage leaves the main path into a
/// region that leads back to another main-path cell.
pub fn remove_shortcuts(cells: &mut Vec<Cell>, main: &Vec<bool>, config: &GridConfig)
    requires
        config.wf(),
        old(cells)@.len() == config.grid_size,
        walls_consistent(old(cells)@, *config),
        main@.len() == config.grid_size,
    ensures
        final(cells)@.len() == config.grid_size,
        walls_consistent(final(cells)@, *config),
        fewer_passages(final(cells)@, old(cells)@, *config),
        forall|k: int, e: Direction|
            0 <= k < config.grid_size && !on_main_border(main@, *config, k, e)
                ==> #[trigger] final(cells)@[k].wall(e) == old(cells)@[k].wall(e),
        forall|m: int, d: Direction|
            0 <= m < config.grid_size && main@[m] && #[trigger] passage(old(cells)@, *config, m, d)
                && !main@[neighbor_of(*config, m, d).unwrap()] && !passage(final(cells)@, *config, m, d)
                ==> escapes(old(cells)@, *config, main@, neighbor_of(*config, m, d).unwrap(), m),
        no_shortcuts(final(cells)@, *config, main@),
        forall|s: int|
            #[trigger] main_hub(old(cells)@, *config, main@, s) && all_connected(old(cells)@, *config)
                ==> all_connected(final(cells)@, *config),
{
    let ghost c = *config;
    let ghost start = cells@;
    let ghost hub: Option<int> = if exists|s: int| #[trigger] main_hub(start, c, main@, s) && all_connected(start, c) {
        Some(choose|s: int| #[trigger] main_hub(start, c, main@, s) && all_connected(start, c))
    } else {
        None
    };
    let off_main = complement(main);
    let n = config.grid_size;
    let mut key: usize = 0;
    while key < 4 * n
        invariant
            c == *config,
            c.wf(),
            n == c.size(),
            key <= 4 * n,
            main@.len() == n,
            off_main@ == outside(main@),
            cells@.len() == n,
            walls_consistent(cells@, c),
            fewer_passages(cells@, start, c),
            hub matches Some(h) ==> main_hub(cells@, c, main@, h) && all_connected(cells@, c),
            forall|k: int, e: Direction|
                0 <= k < n && !on_main_border(main@, c, k, e) ==> #[trigger] cells@[k].wall(e)
                    == start[k].wall(e),
            forall|m: int, d: Direction|
                0 <= m < n && m * 4 + d.code() < key && main@[m] && #[trigger] passage(cells@, c, m, d)
                    && !main@[neighbor_of(c, m, d).unwrap()] ==> !escapes(
                    cells@,
                    c,
                    main@,
                    neighbor_of(c, m, d).unwrap(),
                    m,
                ),
            forall|m: int, d: Direction|
                0 <= m < n && main@[m] && #[trigger] passage(start, c, m, d) && !main@[neighbor_of(
                    c,
                    m,
                    d,
                ).unwrap()] && !passage(cells@, c, m, d) ==> escapes(
                    start,
                    c,
                    main@,
                    neighbor_of(c, m, d).unwrap(),
                    m,
                ),
        decreases 4 * n - key,
    {
        let m = key / 4;
        let d = Direction::from_index(key % 4);
        let ghost before = cells@;
        prune_side(cells, config, main, &off_main, m, d);
        proof {
            if cells@ != before {
                if let Some(h) = hub {
                    lemma_close_keeps_connected(before, c, main@, m as int, d, h);
                }
                lemma_set_passage_consistent(before, c, m as int, d, true);
                lemma_with_passage_wall_walls(before, c, m as int, d, true);
                lemma_neighbor(c, m as int, d);
                let u = neighbor_of(c, m as int, d).unwrap();
                assert(fewer_passages(cells@, before, c)) by {
                    assert forall|k: int, e: Direction| #[trigger] passage(cells@, c, k, e) implies passage(before, c, k, e) by {
                        assert(cells@[k].wall(e) == before[k].wall(e) || cells@[k].wall(e));
                    }
                }
                assert forall|k: int, e: Direction| 0 <= k < n && !on_main_border(main@, c, k, e) implies #[trigger] cells@[k].wall(e)
                    == start[k].wall(e) by {
                    if neighbor_of(c, k, e) == Some(m as int) && e == d.opposite_spec() {
                        assert(k == u);
                    }
                }
                assert forall|m2: int, d2: Direction|
                    0 <= m2 < n && m2 * 4 + d2.code() < key + 1 && main@[m2] && #[trigger] passage(cells@, c, m2, d2)
                        && !main@[neighbor_of(c, m2, d2).unwrap()] implies !escapes(
                        cells@,
                        c,
                        main@,
                        neighbor_of(c, m2, d2).unwrap(),
                        m2,
                    ) by {
                    assert(passage(before, c, m2, d2));
                    if m2 * 4 + d2.code() < key {
                        if escapes(cells@, c, main@, neighbor_of(c, m2, d2).unwrap(), m2) {
                            lemma_escapes_fewer(cells@, before, c, main@, neighbor_of(c, m2, d2).unwrap(), m2);
                        }
                    }
                }
                assert forall|m2: int, d2: Direction|
                    0 <= m2 < n && main@[m2] && #[trigger] passage(start, c, m2, d2) && !main@[neighbor_of(
                        c,
                        m2,
                        d2,
                    ).unwrap()] && !passage(cells@, c, m2, d2) implies escapes(
                        start,
                        c,
                        main@,
                        neighbor_of(c, m2, d2).unwrap(),
                        m2,
                    ) by {
                    if passage(before, c, m2, d2) {
                        if neighbor_of(c, m2, d2) == Some(m as int) && d2 == d.opposite_spec() {
                            lemma_neighbor(c, m2, d2);
                        }
                        assert(m2 == m && d2 == d);
                        lemma_escapes_fewer(before, start, c, main@, u, m as int);
                    }
                }
            } else {
                assert forall|m2: int, d2: Direction|
                    0 <= m2 < n && m2 * 4 + d2.code() < key + 1 && main@[m2] && #[trigger] passage(cells@, c, m2, d2)
                        && !main@[neighbor_of(c, m2, d2).unwrap()] implies !escapes(
                        cells@,
                        c,
                        main@,
                        neighbor_of(c, m2, d2).unwrap(),
                        m2,
                    ) by {
                    if m2 * 4 + d2.code() == key {
                        assert(m2 == m && d2 == d);
                    }
                }
            }
        }
        key = key + 1;
    }
    proof {
        assert forall|m: int, d: Direction|
            0 <= m < c.size() && main@[m] && #[trigger] passage(cells@, c, m, d) && !main@[neighbor_of(c, m, d).unwrap()]
                implies !escapes(cells@, c, main@, neighbor_of(c, m, d).unwrap(), m) by {
            assert(m * 4 + d.code() < 4 * n);
        }
    }
}

} // verus!

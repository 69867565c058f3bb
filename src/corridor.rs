use vstd::prelude::*;

use crate::grid::{
    count_marked, is_walk, lemma_neighbor, lemma_neighbor_injective, linked, neighbor_of, passage,
    Cell, Direction, GridConfig,
};
use crate::maze::{fusible, is_main_path, shaped_by_protection};
use crate::protect::{
    allowed_walk, component, lemma_allowed_walk_push, no_shortcuts, outside, path_ends,
    protected_degree, protected_walls, reachable_within,
};

verus! {

/// Cell `b` is next to cell `a`.
pub open spec fn adjacent(c: GridConfig, a: int, b: int) -> bool {
    exists|d: Direction| #[trigger] neighbor_of(c, a, d) == Some(b)
}

/// `path` is a simple corridor one cell wide: distinct cells of the grid, each
/// next to the one before, and no two cells next to each other unless they
/// follow each other in `path`.
pub open spec fn is_corridor(path: Seq<int>, c: GridConfig) -> bool {
    &&& path.len() >= 2
    &&& forall|k: int| 0 <= k < path.len() ==> 0 <= #[trigger] path[k] < c.size()
    &&& path.no_duplicates()
    &&& forall|k: int| 0 <= k < path.len() - 1 ==> adjacent(c, #[trigger] path[k], path[k + 1])
    &&& forall|i: int, j: int|
        0 <= i < path.len() && 0 <= j < path.len() && adjacent(c, #[trigger] path[i], #[trigger] path[j])
            ==> i == j + 1 || j == i + 1
}

/// The protected cells are exactly the cells of `path`.
pub open spec fn protects_exactly(protected: Seq<bool>, path: Seq<int>, c: GridConfig) -> bool {
    &&& protected.len() == c.size()
    &&& forall|v: int| 0 <= v < c.size() ==> (#[trigger] protected[v] <==> path.contains(v))
}

/// A direction in which an open passage joins `a` to `b`.
proof fn lemma_linked_dir(cells: Seq<Cell>, c: GridConfig, a: int, b: int) -> (d: Direction)
    requires
        linked(cells, c, a, b),
    ensures
        passage(cells, c, a, d),
        neighbor_of(c, a, d) == Some(b),
{
    if passage(cells, c, a, Direction::Up) && neighbor_of(c, a, Direction::Up) == Some(b) {
        Direction::Up
    } else if passage(cells, c, a, Direction::Down) && neighbor_of(c, a, Direction::Down) == Some(b) {
        Direction::Down
    } else if passage(cells, c, a, Direction::Left) && neighbor_of(c, a, Direction::Left) == Some(b) {
        Direction::Left
    } else {
        Direction::Right
    }
}

proof fn lemma_index_in(path: Seq<int>, v: int) -> (k: int)
    requires
        path.contains(v),
    ensures
        0 <= k < path.len(),
        path[k] == v,
{
    choose|k: int| 0 <= k < path.len() && path[k] == v
}

/// Consecutive cells of the corridor are joined both ways wherever walls between
/// adjacent protected cells are down.
proof fn lemma_corridor_links(cells: Seq<Cell>, protected: Seq<bool>, path: Seq<int>, c: GridConfig, k: int)
    requires
        c.wf(),
        is_corridor(path, c),
        protects_exactly(protected, path, c),
        cells.len() == c.size(),
        forall|v: int, e: Direction|
            0 <= v < c.size() && #[trigger] fusible(protected, c, v, e) ==> !cells[v].wall(e),
        0 <= k < path.len() - 1,
    ensures
        linked(cells, c, path[k], path[k + 1]),
        linked(cells, c, path[k + 1], path[k]),
{
    let a = path[k];
    let b = path[k + 1];
    assert(adjacent(c, a, b));
    let d = choose|d: Direction| #[trigger] neighbor_of(c, a, d) == Some(b);
    lemma_neighbor(c, a, d);
    assert(path.contains(a) && path.contains(b));
    assert(fusible(protected, c, a, d));
    assert(fusible(protected, c, b, d.opposite_spec()));
    assert(passage(cells, c, a, d));
    assert(passage(cells, c, b, d.opposite_spec()));
}

/// Every cell of the corridor is reachable from any other through protected cells.
proof fn lemma_corridor_reach(protected: Seq<bool>, path: Seq<int>, c: GridConfig, i: int, j: int)
    requires
        c.wf(),
        is_corridor(path, c),
        protects_exactly(protected, path, c),
        0 <= i < path.len(),
        0 <= j < path.len(),
    ensures
        reachable_within(protected_walls(protected, c), c, protected, path[i], path[j]),
{
    let pg = protected_walls(protected, c);
    assert forall|v: int, e: Direction| 0 <= v < c.size() && #[trigger] fusible(protected, c, v, e) implies !pg[v].wall(e) by {
    }
    if i <= j {
        let w = Seq::new((j - i + 1) as nat, |k: int| path[i + k]);
        assert forall|k: int| 0 <= k < w.len() - 1 implies linked(pg, c, #[trigger] w[k], w[k + 1]) by {
            lemma_corridor_links(pg, protected, path, c, i + k);
        }
        assert forall|k: int| 0 <= k < w.len() implies protected[#[trigger] w[k]] && 0 <= w[k] < c.size() by {
            assert(path[i + k] == w[k]);
            assert(path.contains(w[k]));
        }
        assert(allowed_walk(pg, c, protected, w) && w[0] == path[i] && w.last() == path[j]);
    } else {
        let w = Seq::new((i - j + 1) as nat, |k: int| path[i - k]);
        assert forall|k: int| 0 <= k < w.len() - 1 implies linked(pg, c, #[trigger] w[k], w[k + 1]) by {
            lemma_corridor_links(pg, protected, path, c, i - k - 1);
        }
        assert forall|k: int| 0 <= k < w.len() implies protected[#[trigger] w[k]] && 0 <= w[k] < c.size() by {
            assert(path[i - k] == w[k]);
            assert(path.contains(w[k]));
        }
        assert(allowed_walk(pg, c, protected, w) && w[0] == path[i] && w.last() == path[j]);
    }
}

/// With a corridor as the protected cells, the main path is the whole corridor.
proof fn lemma_main_is_corridor(main: Seq<bool>, protected: Seq<bool>, path: Seq<int>, c: GridConfig)
    requires
        c.wf(),
        is_corridor(path, c),
        protects_exactly(protected, path, c),
        is_main_path(main, protected, c),
    ensures
        main.len() == c.size(),
        forall|v: int| 0 <= v < c.size() ==> (#[trigger] main[v] <==> protected[v]),
{
    assert(path.contains(path[0]));
    assert(protected[path[0]]);
    let s = choose|s: int|
        0 <= s < c.size() && protected[s] && main == component(protected, c, s) && (forall|t: int|
            0 <= t < c.size() && protected[t] ==> count_marked(#[trigger] component(protected, c, t))
                <= count_marked(main)) && (forall|t: int|
            0 <= t < s && protected[t] ==> count_marked(#[trigger] component(protected, c, t))
                < count_marked(main));
    let i = lemma_index_in(path, s);
    let pg = protected_walls(protected, c);
    assert forall|v: int| 0 <= v < c.size() implies (#[trigger] main[v] <==> protected[v]) by {
        assert(main[v] == reachable_within(pg, c, protected, s, v));
        if main[v] {
            let w = choose|w: Seq<int>| allowed_walk(pg, c, protected, w) && w[0] == s && w.last() == v;
            assert(protected[w[w.len() - 1]]);
        }
        if protected[v] {
            let j = lemma_index_in(path, v);
            lemma_corridor_reach(protected, path, c, i, j);
        }
    }
}

/// Ends of the corridor have one protected neighbour, inner cells two.
proof fn lemma_corridor_degree(protected: Seq<bool>, path: Seq<int>, c: GridConfig, k: int)
    requires
        c.wf(),
        is_corridor(path, c),
        protects_exactly(protected, path, c),
        0 <= k < path.len(),
    ensures
        protected_degree(protected, c, path[k]) == if k == 0 || k == path.len() - 1 {
            1int
        } else {
            2int
        },
{
    let v = path[k];
    let last = path.len() - 1;
    let dn = if k < last {
        assert(adjacent(c, path[k], path[k + 1]));
        choose|d: Direction| #[trigger] neighbor_of(c, v, d) == Some(path[k + 1])
    } else {
        Direction::Up
    };
    let dp = if k > 0 {
        assert(adjacent(c, path[k - 1], path[k]));
        let d = choose|d: Direction| #[trigger] neighbor_of(c, path[k - 1], d) == Some(v);
        lemma_neighbor(c, path[k - 1], d);
        d.opposite_spec()
    } else {
        Direction::Up
    };
    assert forall|e: Direction| #[trigger] fusible(protected, c, v, e) == ((k < last && e == dn) || (k > 0
        && e == dp)) by {
        if fusible(protected, c, v, e) {
            let w = neighbor_of(c, v, e).unwrap();
            lemma_neighbor(c, v, e);
            let j = lemma_index_in(path, w);
            assert(adjacent(c, path[k], path[j]));
            if j == k + 1 {
                lemma_neighbor_injective(c, v, e, dn);
            } else {
                assert(j == k - 1);
                lemma_neighbor_injective(c, v, e, dp);
            }
        }
        if k < last && e == dn {
            lemma_neighbor(c, v, dn);
            assert(path.contains(path[k + 1]));
            assert(path.contains(v));
        }
        if k > 0 && e == dp {
            lemma_neighbor(c, v, dp);
            assert(path.contains(path[k - 1]));
            assert(path.contains(v));
        }
    }
    if 0 < k < last {
        assert(path[k + 1] != path[k - 1]);
        assert(dn != dp);
    }
}

proof fn lemma_count_two(s: Seq<bool>, a: int, b: int)
    requires
        0 <= a,
        0 <= b,
        a != b,
        forall|i: int| 0 <= i < s.len() ==> s[i] == (i == a || i == b),
    ensures
        count_marked(s) == (if a < s.len() { 1int } else { 0int }) + (if b < s.len() { 1int } else { 0int }),
    decreases s.len(),
{
    if s.len() > 0 {
        lemma_count_two(s.drop_last(), a, b);
    }
}

/// The main path of a corridor has exactly its two ends.
proof fn lemma_corridor_ends(main: Seq<bool>, protected: Seq<bool>, path: Seq<int>, c: GridConfig)
    requires
        c.wf(),
        is_corridor(path, c),
        protects_exactly(protected, path, c),
        main.len() == c.size(),
        forall|v: int| 0 <= v < c.size() ==> (#[trigger] main[v] <==> protected[v]),
    ensures
        count_marked(path_ends(main, protected, c)) == 2,
{
    let ends = path_ends(main, protected, c);
    let a = path[0];
    let b = path[path.len() - 1];
    lemma_corridor_degree(protected, path, c, 0);
    lemma_corridor_degree(protected, path, c, path.len() - 1);
    assert(path.contains(a) && path.contains(b));
    assert forall|i: int| 0 <= i < ends.len() implies ends[i] == (i == a || i == b) by {
        if main[i] && i != a && i != b {
            let k = lemma_index_in(path, i);
            lemma_corridor_degree(protected, path, c, k);
        }
    }
    lemma_count_two(ends, a, b);
}

/// Where the walk has got to after `n` cells: the furthest it can be along
/// the corridor is `n - 1` cells, and off the corridor it is in a side region
/// entered from the last corridor cell it left.
proof fn lemma_route_progress(
    r: Seq<Cell>,
    c: GridConfig,
    main: Seq<bool>,
    path: Seq<int>,
    q: Seq<int>,
    n: int,
) -> (res: (int, int))
    requires
        c.wf(),
        is_corridor(path, c),
        main.len() == c.size(),
        forall|v: int| 0 <= v < c.size() ==> (#[trigger] main[v] <==> path.contains(v)),
        no_shortcuts(r, c, main),
        is_walk(r, c, q),
        q[0] == path[0],
        1 <= n <= q.len(),
    ensures
        0 <= res.0 < path.len(),
        res.0 <= n - 1,
        main[q[n - 1]] ==> q[n - 1] == path[res.0],
        !main[q[n - 1]] ==> {
            &&& 0 <= res.1 < n - 1
            &&& q[res.1] == path[res.0]
            &&& !main[q[res.1 + 1]]
            &&& linked(r, c, q[res.1], q[res.1 + 1])
            &&& reachable_within(r, c, outside(main), q[res.1 + 1], q[n - 1])
        },
    decreases n,
{
    if n == 1 {
        assert(path.contains(path[0]));
        (0, 0)
    } else {
        let (a, j) = lemma_route_progress(r, c, main, path, q, n - 1);
        let x = q[n - 2];
        let y = q[n - 1];
        assert(linked(r, c, q[n - 2], q[n - 1]));
        let d = lemma_linked_dir(r, c, x, y);
        assert(0 <= x < c.size() && 0 <= y < c.size());
        if main[y] {
            if main[x] {
                let b = lemma_index_in(path, y);
                assert(adjacent(c, path[a], path[b]));
                (b, 0)
            } else {
                let m = q[j];
                let u = q[j + 1];
                let d0 = lemma_linked_dir(r, c, m, u);
                assert(path.contains(m));
                assert(main[m]);
                assert(0 <= m < c.size());
                assert(!crate::protect::escapes(r, c, main, u, m));
                if y != m {
                    assert(reachable_within(r, c, outside(main), u, x));
                    assert(passage(r, c, x, d));
                    assert(crate::protect::escapes(r, c, main, u, m));
                }
                (a, 0)
            }
        } else {
            if main[x] {
                let w = seq![y];
                assert(allowed_walk(r, c, outside(main), w) && w[0] == y && w.last() == y);
                (a, n - 2)
            } else {
                let u = q[j + 1];
                let w = choose|w: Seq<int>| allowed_walk(r, c, outside(main), w) && w[0] == u && w.last() == x;
                lemma_allowed_walk_push(r, c, outside(main), w, x, d);
                assert(w.push(y).last() == y);
                (a, j)
            }
        }
    }
}

/// With a simple one-cell-wide corridor as the protected cells, a generated
/// maze keeps the corridor open from end to end, and no walk between its two
/// ends is shorter than the corridor itself.
pub proof fn lemma_corridor_is_shortest_route(
    r: Seq<Cell>,
    t: Seq<Cell>,
    f: Seq<Cell>,
    main: Seq<bool>,
    protected: Seq<bool>,
    path: Seq<int>,
    c: GridConfig,
    q: Seq<int>,
)
    requires
        c.wf(),
        shaped_by_protection(r, t, f, main, protected, c),
        is_corridor(path, c),
        protects_exactly(protected, path, c),
        is_walk(r, c, q),
        q[0] == path[0],
        q.last() == path.last(),
    ensures
        is_walk(r, c, path),
        q.len() >= path.len(),
{
    lemma_main_is_corridor(main, protected, path, c);
    lemma_corridor_ends(main, protected, path, c);
    assert(forall|v: int, e: Direction|
        0 <= v < c.size() && #[trigger] fusible(protected, c, v, e) ==> !f[v].wall(e));
    assert forall|v: int, e: Direction| 0 <= v < c.size() && #[trigger] fusible(protected, c, v, e) implies !r[v].wall(e) by {
        lemma_neighbor(c, v, e);
        assert(!f[v].wall(e));
        assert(!crate::protect::on_main_border(main, c, v, e));
    }
    assert forall|k: int| 0 <= k < path.len() - 1 implies linked(r, c, #[trigger] path[k], path[k + 1]) by {
        lemma_corridor_links(r, protected, path, c, k);
    }
    assert forall|v: int| 0 <= v < c.size() implies (#[trigger] main[v] <==> path.contains(v)) by {
        assert(main[v] == protected[v]);
    }
    let res = lemma_route_progress(r, c, main, path, q, q.len() as int);
    let last = path.len() - 1;
    assert(path.contains(path[last]));
    assert(main[q[q.len() - 1]]);
    assert(path[res.0] == path[last]);
}

} // verus!

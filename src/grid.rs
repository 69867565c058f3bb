use vstd::prelude::*;
use vstd::arithmetic::div_mod::lemma_fundamental_div_mod_converse;

verus! {

/// One of the four cardinal directions of the grid.
#[derive(Clone, Copy, Debug, PartialEq, Eq, Structural)]
pub enum Direction {
    Up,
    Down,
    Left,
    Right,
}

impl Direction {
    pub open spec fn opposite_spec(self) -> Direction {
        match self {
            Direction::Up => Direction::Down,
            Direction::Down => Direction::Up,
            Direction::Left => Direction::Right,
            Direction::Right => Direction::Left,
        }
    }

    /// The direction that points back.
    pub fn opposite(self) -> (r: Direction)
        ensures
            r == self.opposite_spec(),
    {
        match self {
            Direction::Up => Direction::Down,
            Direction::Down => Direction::Up,
            Direction::Left => Direction::Right,
            Direction::Right => Direction::Left,
        }
    }

    pub open spec fn code(self) -> nat {
        match self {
            Direction::Up => 0,
            Direction::Down => 1,
            Direction::Left => 2,
            Direction::Right => 3,
        }
    }

    pub open spec fn from_code_spec(k: nat) -> Direction {
        if k == 0 {
            Direction::Up
        } else if k == 1 {
            Direction::Down
        } else if k == 2 {
            Direction::Left
        } else {
            Direction::Right
        }
    }

    /// The position of the direction in the order Up, Down, Left, Right.
    pub fn index(self) -> (r: usize)
        ensures
            r == self.code(),
            r < 4,
    {
        match self {
            Direction::Up => 0,
            Direction::Down => 1,
            Direction::Left => 2,
            Direction::Right => 3,
        }
    }

    /// The direction at position `k` of the order Up, Down, Left, Right.
    pub fn from_index(k: usize) -> (r: Direction)
        requires
            k < 4,
        ensures
            r == Direction::from_code_spec(k as nat),
            r.code() == k,
    {
        if k == 0 {
            Direction::Up
        } else if k == 1 {
            Direction::Down
        } else if k == 2 {
            Direction::Left
        } else {
            Direction::Right
        }
    }
}

/// A grid cell: each flag is `true` while the wall on that side stands.
#[derive(Clone, Copy, Debug, PartialEq, Eq, Structural)]
pub struct Cell {
    pub up: bool,
    pub down: bool,
    pub left: bool,
    pub right: bool,
}

impl Cell {
    /// A cell with all four walls standing.
    pub fn new() -> (r: Cell)
        ensures
            r.closed(),
    {
        Cell { up: true, down: true, left: true, right: true }
    }

    pub open spec fn wall(self, d: Direction) -> bool {
        match d {
            Direction::Up => self.up,
            Direction::Down => self.down,
            Direction::Left => self.left,
            Direction::Right => self.right,
        }
    }

    pub open spec fn closed(self) -> bool {
        self.up && self.down && self.left && self.right
    }

    pub open spec fn with_wall(self, d: Direction, present: bool) -> Cell {
        match d {
            Direction::Up => Cell { up: present, ..self },
            Direction::Down => Cell { down: present, ..self },
            Direction::Left => Cell { left: present, ..self },
            Direction::Right => Cell { right: present, ..self },
        }
    }

    /// Whether the wall on side `d` stands.
    pub fn has_wall(&self, d: Direction) -> (r: bool)
        ensures
            r == self.wall(d),
    {
        match d {
            Direction::Up => self.up,
            Direction::Down => self.down,
            Direction::Left => self.left,
            Direction::Right => self.right,
        }
    }

    /// Raises (`present`) or clears the wall on side `d`; the other sides keep theirs.
    pub fn set_wall(&mut self, d: Direction, present: bool)
        ensures
            *final(self) == old(self).with_wall(d, present),
    {
        match d {
            Direction::Up => self.up = present,
            Direction::Down => self.down = present,
            Direction::Left => self.left = present,
            Direction::Right => self.right = present,
        }
    }
}

/// Geometry of a session: the cell grid and how it is placed on screen.
#[derive(Clone, Copy, Debug, PartialEq, Eq, Structural)]
pub struct GridConfig {
    pub grid_width: usize,
    pub grid_height: usize,
    pub grid_size: usize,
    pub cell_size: u32,
    pub offset_x: i32,
    pub offset_y: i32,
}

/// Largest number of cells a grid may have: four frontier entries per cell
/// must stay within the range the random source draws from.
pub const MAX_CELLS: usize = 0x3fff_ffff;

impl GridConfig {
    pub open spec fn wf(self) -> bool {
        &&& self.grid_size == self.grid_width * self.grid_height
        &&& self.grid_size <= MAX_CELLS
    }

    pub open spec fn width(self) -> int {
        self.grid_width as int
    }

    pub open spec fn height(self) -> int {
        self.grid_height as int
    }

    pub open spec fn size(self) -> int {
        self.grid_size as int
    }

    pub open spec fn col(self, i: int) -> int {
        i % self.width()
    }

    pub open spec fn row(self, i: int) -> int {
        i / self.width()
    }

    /// A configuration for a `grid_width` by `grid_height` grid.
    pub fn new(grid_width: usize, grid_height: usize, cell_size: u32, offset_x: i32, offset_y: i32)
        -> (r: GridConfig)
        requires
            grid_width * grid_height <= MAX_CELLS,
        ensures
            r.wf(),
            r.grid_width == grid_width,
            r.grid_height == grid_height,
            r.grid_size == grid_width * grid_height,
            r.cell_size == cell_size,
            r.offset_x == offset_x,
            r.offset_y == offset_y,
    {
        GridConfig {
            grid_width,
            grid_height,
            grid_size: grid_width * grid_height,
            cell_size,
            offset_x,
            offset_y,
        }
    }

    /// Row-major index of the cell at column `x`, row `y`.
    pub fn index_of(&self, x: usize, y: usize) -> (r: usize)
        requires
            self.wf(),
            x < self.grid_width,
            y < self.grid_height,
        ensures
            r == y * self.grid_width + x,
            r < self.grid_size,
            self.col(r as int) == x,
            self.row(r as int) == y,
    {
        proof {
            lemma_index_coords(self.width(), self.height(), x as int, y as int);
        }
        y * self.grid_width + x
    }

    /// Column and row of the cell at index `i`.
    pub fn coords(&self, i: usize) -> (r: (usize, usize))
        requires
            self.wf(),
            i < self.grid_size,
        ensures
            r.0 == self.col(i as int),
            r.1 == self.row(i as int),
            r.0 < self.grid_width,
            r.1 < self.grid_height,
    {
        proof {
            lemma_coords(*self, i as int);
        }
        (i % self.grid_width, i / self.grid_width)
    }
}

/// The cell next to `i` in direction `d`, if it lies inside the grid.
pub open spec fn neighbor_of(c: GridConfig, i: int, d: Direction) -> Option<int> {
    match d {
        Direction::Up => if c.row(i) > 0 { Some(i - c.width()) } else { None },
        Direction::Down => if c.row(i) + 1 < c.height() { Some(i + c.width()) } else { None },
        Direction::Left => if c.col(i) > 0 { Some(i - 1) } else { None },
        Direction::Right => if c.col(i) + 1 < c.width() { Some(i + 1) } else { None },
    }
}

pub proof fn lemma_index_coords(w: int, h: int, x: int, y: int)
    requires
        0 <= x < w,
        0 <= y < h,
    ensures
        (y * w + x) % w == x,
        (y * w + x) / w == y,
        0 <= y * w + x < w * h,
{
    lemma_fundamental_div_mod_converse(y * w + x, w, y, x);
    assert(y * w + x < w * h) by (nonlinear_arith)
        requires 0 <= x < w, 0 <= y < h;
}

pub proof fn lemma_coords(c: GridConfig, i: int)
    requires
        c.wf(),
        0 <= i < c.size(),
    ensures
        c.width() > 0,
        c.height() > 0,
        0 <= c.col(i) < c.width(),
        0 <= c.row(i) < c.height(),
        i == c.row(i) * c.width() + c.col(i),
{
    let w = c.width();
    let h = c.height();
    assert(w > 0 && h > 0) by (nonlinear_arith)
        requires 0 <= i < w * h, w >= 0, h >= 0;
    vstd::arithmetic::div_mod::lemma_fundamental_div_mod(i, w);
    vstd::arithmetic::div_mod::lemma_mod_pos_bound(i, w);
    assert(i / w < h) by {
        vstd::arithmetic::div_mod::lemma_div_pos_is_pos(i, w);
        if i / w >= h {
            assert(w * (i / w) >= w * h) by (nonlinear_arith)
                requires i / w >= h, w > 0;
        }
    }
    assert(i / w >= 0) by {
        vstd::arithmetic::div_mod::lemma_div_pos_is_pos(i, w);
    }
    assert(i == (i / w) * w + i % w) by (nonlinear_arith)
        requires i == w * (i / w) + i % w;
}

/// Neighbours are inside the grid, one step away, and point back.
pub proof fn lemma_neighbor(c: GridConfig, i: int, d: Direction)
    requires
        c.wf(),
        0 <= i < c.size(),
        neighbor_of(c, i, d) is Some,
    ensures
        ({
            let j = neighbor_of(c, i, d).unwrap();
            &&& 0 <= j < c.size()
            &&& neighbor_of(c, j, d.opposite_spec()) == Some(i)
            &&& j != i
            &&& match d {
                Direction::Up => c.col(j) == c.col(i) && c.row(j) == c.row(i) - 1,
                Direction::Down => c.col(j) == c.col(i) && c.row(j) == c.row(i) + 1,
                Direction::Left => c.col(j) == c.col(i) - 1 && c.row(j) == c.row(i),
                Direction::Right => c.col(j) == c.col(i) + 1 && c.row(j) == c.row(i),
            }
        }),
{
    lemma_coords(c, i);
    let w = c.width();
    let h = c.height();
    let x = c.col(i);
    let y = c.row(i);
    match d {
        Direction::Up => {
            assert(i - w == (y - 1) * w + x) by (nonlinear_arith)
                requires i == y * w + x;
            lemma_index_coords(w, h, x, y - 1);
        },
        Direction::Down => {
            assert(i + w == (y + 1) * w + x) by (nonlinear_arith)
                requires i == y * w + x;
            lemma_index_coords(w, h, x, y + 1);
        },
        Direction::Left => {
            lemma_index_coords(w, h, x - 1, y);
        },
        Direction::Right => {
            lemma_index_coords(w, h, x + 1, y);
        },
    }
}

/// The cell next to `i` in direction `d`, or `None` at the border of the grid.
pub fn neighbor(config: &GridConfig, i: usize, d: Direction) -> (r: Option<usize>)
    requires
        config.wf(),
        i < config.grid_size,
    ensures
        r matches Some(j) ==> neighbor_of(*config, i as int, d) == Some(j as int) && j
            < config.grid_size,
        r is None ==> neighbor_of(*config, i as int, d) is None,
{
    proof {
        lemma_coords(*config, i as int);
    }
    let x = i % config.grid_width;
    let y = i / config.grid_width;
    proof {
        if neighbor_of(*config, i as int, d) is Some {
            lemma_neighbor(*config, i as int, d);
        }
    }
    match d {
        Direction::Up => if y > 0 {
            Some(i - config.grid_width)
        } else {
            None
        },
        Direction::Down => if y + 1 < config.grid_height {
            Some(i + config.grid_width)
        } else {
            None
        },
        Direction::Left => if x > 0 {
            Some(i - 1)
        } else {
            None
        },
        Direction::Right => if x + 1 < config.grid_width {
            Some(i + 1)
        } else {
            None
        },
    }
}

/// An open passage leaves cell `i` in direction `d`: the neighbour exists and the wall is down.
pub open spec fn passage(cells: Seq<Cell>, c: GridConfig, i: int, d: Direction) -> bool {
    &&& 0 <= i < c.size()
    &&& neighbor_of(c, i, d) is Some
    &&& !cells[i].wall(d)
}

/// Cells `a` and `b` are joined by an open passage.
pub open spec fn linked(cells: Seq<Cell>, c: GridConfig, a: int, b: int) -> bool {
    ||| passage(cells, c, a, Direction::Up) && neighbor_of(c, a, Direction::Up) == Some(b)
    ||| passage(cells, c, a, Direction::Down) && neighbor_of(c, a, Direction::Down) == Some(b)
    ||| passage(cells, c, a, Direction::Left) && neighbor_of(c, a, Direction::Left) == Some(b)
    ||| passage(cells, c, a, Direction::Right) && neighbor_of(c, a, Direction::Right) == Some(b)
}

/// The two sides of every inner wall agree, and the border of the grid is closed.
pub open spec fn walls_consistent(cells: Seq<Cell>, c: GridConfig) -> bool {
    &&& cells.len() == c.size()
    &&& forall|i: int, d: Direction|
        0 <= i < c.size() ==> match #[trigger] neighbor_of(c, i, d) {
            Some(j) => cells[i].wall(d) == cells[j].wall(d.opposite_spec()),
            None => cells[i].wall(d),
        }
}

/// `p` is a walk through open passages.
pub open spec fn is_walk(cells: Seq<Cell>, c: GridConfig, p: Seq<int>) -> bool {
    &&& p.len() >= 1
    &&& forall|k: int| 0 <= k < p.len() ==> 0 <= #[trigger] p[k] < c.size()
    &&& forall|k: int| 0 <= k < p.len() - 1 ==> linked(cells, c, #[trigger] p[k], p[k + 1])
}

/// Cell `b` can be reached from cell `a` through open passages.
pub open spec fn connected(cells: Seq<Cell>, c: GridConfig, a: int, b: int) -> bool {
    exists|p: Seq<int>| is_walk(cells, c, p) && p[0] == a && p.last() == b
}

/// Number of open passages counted once each: to the right and downward of every cell.
pub open spec fn open_count(cells: Seq<Cell>, c: GridConfig, n: int) -> int
    decreases n,
{
    if n <= 0 {
        0
    } else {
        open_count(cells, c, n - 1) + cell_open_count(cells, c, n - 1)
    }
}

pub open spec fn cell_open_count(cells: Seq<Cell>, c: GridConfig, i: int) -> int {
    (if passage(cells, c, i, Direction::Right) { 1int } else { 0int }) + (if passage(
        cells,
        c,
        i,
        Direction::Down,
    ) {
        1int
    } else {
        0int
    })
}

/// Number of open passages in the whole grid.
pub open spec fn open_passages(cells: Seq<Cell>, c: GridConfig) -> int {
    open_count(cells, c, c.size())
}

/// `cells` with the wall between `i` and its neighbour in direction `d` set to `present` on both sides.
pub open spec fn with_passage_wall(cells: Seq<Cell>, c: GridConfig, i: int, d: Direction, present: bool)
    -> Seq<Cell> {
    let j = neighbor_of(c, i, d).unwrap();
    cells.update(i, cells[i].with_wall(d, present)).update(
        j,
        cells[j].with_wall(d.opposite_spec(), present),
    )
}

/// Different directions lead to different neighbours.
pub proof fn lemma_neighbor_injective(c: GridConfig, i: int, d1: Direction, d2: Direction)
    requires
        c.wf(),
        0 <= i < c.size(),
        neighbor_of(c, i, d1) is Some,
        neighbor_of(c, i, d1) == neighbor_of(c, i, d2),
    ensures
        d1 == d2,
{
    lemma_neighbor(c, i, d1);
    lemma_neighbor(c, i, d2);
}

/// Raising or clearing one inner wall on both of its sides keeps the walls consistent.
pub proof fn lemma_set_passage_consistent(
    cells: Seq<Cell>,
    c: GridConfig,
    i: int,
    d: Direction,
    present: bool,
)
    requires
        c.wf(),
        walls_consistent(cells, c),
        0 <= i < c.size(),
        neighbor_of(c, i, d) is Some,
    ensures
        walls_consistent(with_passage_wall(cells, c, i, d, present), c),
{
    let j = neighbor_of(c, i, d).unwrap();
    let new = with_passage_wall(cells, c, i, d, present);
    lemma_neighbor(c, i, d);
    assert forall|k: int, e: Direction| 0 <= k < c.size() implies match #[trigger] neighbor_of(
        c,
        k,
        e,
    ) {
        Some(m) => new[k].wall(e) == new[m].wall(e.opposite_spec()),
        None => new[k].wall(e),
    } by {
        assert(cells[k].wall(e) == match neighbor_of(c, k, e) {
            Some(m) => cells[m].wall(e.opposite_spec()),
            None => true,
        } || neighbor_of(c, k, e) is Some);
        match neighbor_of(c, k, e) {
            Some(m) => {
                lemma_neighbor(c, k, e);
                if k == i && e != d {
                    if m == j {
                        lemma_neighbor_injective(c, i, d, e);
                    }
                }
                if k == j && e != d.opposite_spec() {
                    if m == i {
                        lemma_neighbor_injective(c, j, d.opposite_spec(), e);
                    }
                }
                if k != i && k != j {
                    if m == i && e.opposite_spec() == d {
                        lemma_neighbor_injective(c, i, d, e.opposite_spec());
                    }
                    if m == j && e.opposite_spec() == d.opposite_spec() {
                        lemma_neighbor_injective(c, j, d.opposite_spec(), e.opposite_spec());
                    }
                }
            },
            None => {},
        }
    }
}

/// Sets the wall between cell `i` and its neighbour `j` in direction `d` on both sides.
pub fn set_passage_wall(
    cells: &mut Vec<Cell>,
    config: &GridConfig,
    i: usize,
    d: Direction,
    j: usize,
    present: bool,
)
    requires
        config.wf(),
        old(cells)@.len() == config.grid_size,
        i < config.grid_size,
        neighbor_of(*config, i as int, d) == Some(j as int),
    ensures
        final(cells)@ == with_passage_wall(old(cells)@, *config, i as int, d, present),
{
    proof {
        lemma_neighbor(*config, i as int, d);
    }
    let mut a = cells[i];
    a.set_wall(d, present);
    cells.set(i, a);
    let mut b = cells[j];
    b.set_wall(d.opposite(), present);
    cells.set(j, b);
}

/// Cells `a` and `b` are joined by an open passage both ways.
pub proof fn lemma_linked_symmetric(cells: Seq<Cell>, c: GridConfig, a: int, b: int)
    requires
        c.wf(),
        walls_consistent(cells, c),
        linked(cells, c, a, b),
    ensures
        linked(cells, c, b, a),
{
    let d = if passage(cells, c, a, Direction::Up) && neighbor_of(c, a, Direction::Up) == Some(b) {
        Direction::Up
    } else if passage(cells, c, a, Direction::Down) && neighbor_of(c, a, Direction::Down) == Some(
        b,
    ) {
        Direction::Down
    } else if passage(cells, c, a, Direction::Left) && neighbor_of(c, a, Direction::Left) == Some(
        b,
    ) {
        Direction::Left
    } else {
        Direction::Right
    };
    lemma_neighbor(c, a, d);
    assert(cells[a].wall(d) == cells[b].wall(d.opposite_spec()));
}

/// Walks stay walks when walls only come down.
pub proof fn lemma_walk_opened(old: Seq<Cell>, new: Seq<Cell>, c: GridConfig, p: Seq<int>)
    requires
        is_walk(old, c, p),
        forall|i: int, d: Direction| #[trigger] passage(old, c, i, d) ==> passage(new, c, i, d),
    ensures
        is_walk(new, c, p),
{
    assert forall|k: int| 0 <= k < p.len() - 1 implies linked(new, c, #[trigger] p[k], p[k + 1]) by {
        assert(linked(old, c, p[k], p[k + 1]));
        assert(passage(old, c, p[k], Direction::Up) ==> passage(new, c, p[k], Direction::Up));
        assert(passage(old, c, p[k], Direction::Down) ==> passage(new, c, p[k], Direction::Down));
        assert(passage(old, c, p[k], Direction::Left) ==> passage(new, c, p[k], Direction::Left));
        assert(passage(old, c, p[k], Direction::Right) ==> passage(new, c, p[k], Direction::Right));
    }
}

/// A walk extended by one open passage.
pub proof fn lemma_walk_push(cells: Seq<Cell>, c: GridConfig, p: Seq<int>, b: int)
    requires
        is_walk(cells, c, p),
        linked(cells, c, p.last(), b),
        0 <= b < c.size(),
    ensures
        is_walk(cells, c, p.push(b)),
        p.push(b)[0] == p[0],
        p.push(b).last() == b,
{
    let q = p.push(b);
    assert forall|k: int| 0 <= k < q.len() - 1 implies linked(cells, c, #[trigger] q[k], q[k + 1]) by {
        if k < p.len() - 1 {
            assert(q[k] == p[k] && q[k + 1] == p[k + 1]);
        }
    }
}

/// Reachability is symmetric and transitive.
pub proof fn lemma_connected_via(cells: Seq<Cell>, c: GridConfig, s: int, a: int, b: int)
    requires
        c.wf(),
        walls_consistent(cells, c),
        connected(cells, c, s, a),
        connected(cells, c, s, b),
    ensures
        connected(cells, c, a, b),
{
    let pa = choose|p: Seq<int>| is_walk(cells, c, p) && p[0] == s && p.last() == a;
    let pb = choose|p: Seq<int>| is_walk(cells, c, p) && p[0] == s && p.last() == b;
    let ra = pa.reverse();
    let q = ra + pb.drop_first();
    assert forall|k: int| 0 <= k < q.len() implies 0 <= #[trigger] q[k] < c.size() by {
        if k < ra.len() {
            assert(q[k] == pa[pa.len() - 1 - k]);
        } else {
            assert(q[k] == pb[k - ra.len() + 1]);
        }
    }
    assert forall|k: int| 0 <= k < q.len() - 1 implies linked(cells, c, #[trigger] q[k], q[k + 1]) by {
        if k < ra.len() - 1 {
            let m = pa.len() - 2 - k;
            assert(linked(cells, c, pa[m], pa[m + 1]));
            lemma_linked_symmetric(cells, c, pa[m], pa[m + 1]);
            assert(q[k] == pa[m + 1] && q[k + 1] == pa[m]);
        } else if k == ra.len() - 1 {
            assert(q[k] == pa[0]);
            assert(q[k + 1] == pb[1]);
            assert(linked(cells, c, pb[0], pb[1]));
        } else {
            let m = k - ra.len() + 1;
            assert(q[k] == pb[m] && q[k + 1] == pb[m + 1]);
            assert(linked(cells, c, pb[m], pb[m + 1]));
        }
    }
    if pb.len() == 1 {
        assert(q =~= ra);
    }
    assert(is_walk(cells, c, q) && q[0] == a && q.last() == b);
}

/// Changing the right and down walls of one cell only changes that cell's share of the count.
pub proof fn lemma_open_count_change(old: Seq<Cell>, new: Seq<Cell>, c: GridConfig, j: int, n: int)
    requires
        forall|i: int| i != j ==> cell_open_count(old, c, i) == #[trigger] cell_open_count(new, c, i),
    ensures
        open_count(new, c, n) == open_count(old, c, n) + if 0 <= j < n {
            cell_open_count(new, c, j) - cell_open_count(old, c, j)
        } else {
            0
        },
    decreases n,
{
    if n > 0 {
        lemma_open_count_change(old, new, c, j, n - 1);
    }
}

/// What setting one inner wall does to every side of every cell.
pub proof fn lemma_with_passage_wall_walls(
    cells: Seq<Cell>,
    c: GridConfig,
    i: int,
    d: Direction,
    present: bool,
)
    requires
        c.wf(),
        cells.len() == c.size(),
        0 <= i < c.size(),
        neighbor_of(c, i, d) is Some,
    ensures
        with_passage_wall(cells, c, i, d, present).len() == cells.len(),
        forall|k: int, e: Direction|
            0 <= k < c.size() ==> #[trigger] with_passage_wall(cells, c, i, d, present)[k].wall(e) == if (k
                == i && e == d) || (neighbor_of(c, k, e) == Some(i) && e == d.opposite_spec()) {
                present
            } else {
                cells[k].wall(e)
            },
{
    let j = neighbor_of(c, i, d).unwrap();
    lemma_neighbor(c, i, d);
    assert forall|k: int, e: Direction| 0 <= k < c.size() implies #[trigger] with_passage_wall(
        cells,
        c,
        i,
        d,
        present,
    )[k].wall(e) == if (k == i && e == d) || (neighbor_of(c, k, e) == Some(i) && e
        == d.opposite_spec()) {
        present
    } else {
        cells[k].wall(e)
    } by {
        if neighbor_of(c, k, e) == Some(i) && e == d.opposite_spec() {
            lemma_neighbor(c, k, e);
            assert(k == j);
        }
        if k == j && e == d.opposite_spec() {
            assert(neighbor_of(c, k, e) == Some(i));
        }
    }
}

/// Number of marked entries.
pub open spec fn count_marked(v: Seq<bool>) -> int
    decreases v.len(),
{
    if v.len() == 0 {
        0
    } else {
        count_marked(v.drop_last()) + if v.last() {
            1int
        } else {
            0int
        }
    }
}

pub proof fn lemma_count_bounds(v: Seq<bool>)
    ensures
        0 <= count_marked(v) <= v.len(),
    decreases v.len(),
{
    if v.len() > 0 {
        lemma_count_bounds(v.drop_last());
    }
}

pub proof fn lemma_count_mark(v: Seq<bool>, i: int)
    requires
        0 <= i < v.len(),
        !v[i],
    ensures
        count_marked(v.update(i, true)) == count_marked(v) + 1,
    decreases v.len(),
{
    let u = v.update(i, true);
    if i < v.len() - 1 {
        assert(u.drop_last() =~= v.drop_last().update(i, true));
        lemma_count_mark(v.drop_last(), i);
    } else {
        assert(u.drop_last() =~= v.drop_last());
    }
}

pub proof fn lemma_count_all(v: Seq<bool>)
    requires
        forall|i: int| 0 <= i < v.len() ==> v[i],
    ensures
        count_marked(v) == v.len(),
    decreases v.len(),
{
    if v.len() > 0 {
        lemma_count_all(v.drop_last());
    }
}

pub proof fn lemma_count_none(n: nat)
    ensures
        count_marked(Seq::new(n, |i: int| false)) == 0,
    decreases n,
{
    if n > 0 {
        assert(Seq::new(n, |i: int| false).drop_last() =~= Seq::new((n - 1) as nat, |i: int| false));
        lemma_count_none((n - 1) as nat);
    }
}

/// Every cell reaches every other through open passages.
pub open spec fn all_connected(cells: Seq<Cell>, c: GridConfig) -> bool {
    forall|a: int, b: int| 0 <= a < c.size() && 0 <= b < c.size() ==> #[trigger] connected(cells, c, a, b)
}

pub proof fn lemma_connected_refl(cells: Seq<Cell>, c: GridConfig, a: int)
    requires
        0 <= a < c.size(),
    ensures
        connected(cells, c, a, a),
{
    let p = seq![a];
    assert(is_walk(cells, c, p) && p[0] == a && p.last() == a);
}

pub proof fn lemma_connected_trans(cells: Seq<Cell>, c: GridConfig, a: int, b: int, d: int)
    requires
        c.wf(),
        walls_consistent(cells, c),
        connected(cells, c, a, b),
        connected(cells, c, b, d),
    ensures
        connected(cells, c, a, d),
{
    let p = choose|p: Seq<int>| is_walk(cells, c, p) && p[0] == a && p.last() == b;
    assert(0 <= p[0] < c.size());
    lemma_connected_refl(cells, c, a);
    lemma_connected_via(cells, c, a, b, a);
    lemma_connected_via(cells, c, b, a, d);
}

pub proof fn lemma_linked_connected(cells: Seq<Cell>, c: GridConfig, a: int, b: int)
    requires
        linked(cells, c, a, b),
        0 <= a < c.size(),
        0 <= b < c.size(),
    ensures
        connected(cells, c, a, b),
{
    let p = seq![a, b];
    assert(is_walk(cells, c, p) && p[0] == a && p.last() == b);
}

/// A walk stays a walk when each of its steps keeps an open passage.
pub proof fn lemma_walk_kept(old: Seq<Cell>, new: Seq<Cell>, c: GridConfig, p: Seq<int>)
    requires
        is_walk(old, c, p),
        forall|k: int, e: Direction|
            0 <= k < p.len() - 1 && #[trigger] passage(old, c, p[k], e) && neighbor_of(c, p[k], e) == Some(
                p[k + 1],
            ) ==> passage(new, c, p[k], e),
    ensures
        is_walk(new, c, p),
{
    assert forall|k: int| 0 <= k < p.len() - 1 implies linked(new, c, #[trigger] p[k], p[k + 1]) by {
        assert(linked(old, c, p[k], p[k + 1]));
        if passage(old, c, p[k], Direction::Up) && neighbor_of(c, p[k], Direction::Up) == Some(p[k + 1]) {
            assert(passage(new, c, p[k], Direction::Up));
        } else if passage(old, c, p[k], Direction::Down) && neighbor_of(c, p[k], Direction::Down) == Some(p[k + 1]) {
            assert(passage(new, c, p[k], Direction::Down));
        } else if passage(old, c, p[k], Direction::Left) && neighbor_of(c, p[k], Direction::Left) == Some(p[k + 1]) {
            assert(passage(new, c, p[k], Direction::Left));
        } else {
            assert(passage(new, c, p[k], Direction::Right));
        }
    }
}

/// Raising one wall disconnects nothing when its two sides stay connected.
pub proof fn lemma_walk_after_close(old: Seq<Cell>, c: GridConfig, i: int, d: Direction, p: Seq<int>)
    requires
        c.wf(),
        walls_consistent(old, c),
        0 <= i < c.size(),
        neighbor_of(c, i, d) is Some,
        connected(with_passage_wall(old, c, i, d, true), c, i, neighbor_of(c, i, d).unwrap()),
        is_walk(old, c, p),
    ensures
        connected(with_passage_wall(old, c, i, d, true), c, p[0], p.last()),
    decreases p.len(),
{
    let new = with_passage_wall(old, c, i, d, true);
    let j = neighbor_of(c, i, d).unwrap();
    lemma_neighbor(c, i, d);
    lemma_set_passage_consistent(old, c, i, d, true);
    lemma_with_passage_wall_walls(old, c, i, d, true);
    if p.len() == 1 {
        lemma_connected_refl(new, c, p[0]);
    } else {
        let q = p.drop_last();
        assert forall|k: int| 0 <= k < q.len() - 1 implies linked(old, c, #[trigger] q[k], q[k + 1]) by {
            assert(q[k] == p[k] && q[k + 1] == p[k + 1]);
        }
        assert forall|k: int| 0 <= k < q.len() implies 0 <= #[trigger] q[k] < c.size() by {
            assert(q[k] == p[k]);
        }
        lemma_walk_after_close(old, c, i, d, q);
        let x = p[p.len() - 2];
        let y = p.last();
        assert(linked(old, c, x, y));
        assert(0 <= x < c.size() && 0 <= y < c.size());
        if linked(new, c, x, y) {
            lemma_linked_connected(new, c, x, y);
        } else {
            let e = if passage(old, c, x, Direction::Up) && neighbor_of(c, x, Direction::Up) == Some(y) {
                Direction::Up
            } else if passage(old, c, x, Direction::Down) && neighbor_of(c, x, Direction::Down) == Some(y) {
                Direction::Down
            } else if passage(old, c, x, Direction::Left) && neighbor_of(c, x, Direction::Left) == Some(y) {
                Direction::Left
            } else {
                Direction::Right
            };
            assert(!passage(new, c, x, e));
            assert(new[x].wall(e));
            if x == i && e == d {
                assert(y == j);
            } else {
                assert(neighbor_of(c, x, e) == Some(i) && e == d.opposite_spec());
                lemma_neighbor(c, x, e);
                assert(x == j && y == i);
                lemma_connected_refl(new, c, i);
                lemma_connected_via(new, c, i, j, i);
            }
        }
        lemma_connected_trans(new, c, p[0], x, y);
    }
}

/// `n` unmarked entries.
pub fn unmarked(n: usize) -> (r: Vec<bool>)
    ensures
        r@ == Seq::new(n as nat, |i: int| false),
{
    let mut v: Vec<bool> = Vec::new();
    while v.len() < n
        invariant
            v@.len() <= n,
            forall|j: int| 0 <= j < v@.len() ==> !v@[j],
        decreases n - v@.len(),
    {
        v.push(false);
    }
    assert(v@ =~= Seq::new(n as nat, |i: int| false));
    v
}

} // verus!

use vstd::prelude::*;
use vstd::arithmetic::div_mod::{
    lemma_fundamental_div_mod,
    lemma_fundamental_div_mod_converse,
    lemma_mod_bound,
};
use crate::cell::Cell;
use crate::search::Grid;

verus! {

/// An axis-aligned rectangle: left, top, width, height.
pub type Rect = (i32, i32, i32, i32);

/// A scene in fixed-point coordinates: each coordinate `v` stands for the
/// length `v / unit`, in grid cells. `origin` is the top-left corner of the
/// background region and `size` its extent; `start`, `end` and the obstacle
/// rectangles in `walls` are in the same coordinates as `origin`.
pub struct Maze {
    pub unit: i32,
    pub origin: (i32, i32),
    pub start: (i32, i32),
    pub end: (i32, i32),
    pub size: (i32, i32),
    pub walls: Vec<Rect>,
}

/// Floor of `a / u` (for positive `u`, Euclidean division rounds down).
pub open spec fn floor_div(a: int, u: int) -> int {
    a / u
}

/// Ceiling of `a / u`.
pub open spec fn ceil_div(a: int, u: int) -> int {
    -((-a) / u)
}

/// `a / u` rounded to the nearest integer, halves away from zero.
pub open spec fn round_div(a: int, u: int) -> int {
    if a >= 0 {
        floor_div(2 * a + u, 2 * u)
    } else {
        -floor_div(-2 * a + u, 2 * u)
    }
}

/// The cell that a point of the scene falls in, rounded to the nearest one.
pub open spec fn point_cell(m: Maze, p: (i32, i32)) -> Cell {
    (
        round_div(p.0 - m.origin.0, m.unit as int) as i64,
        round_div(p.1 - m.origin.1, m.unit as int) as i64,
    )
}

/// The cells that rectangle `r` blocks: every cell from the one holding its
/// top-left corner up to, not including, the first one past its far edges.
pub open spec fn rect_blocks(m: Maze, r: Rect, c: Cell) -> bool {
    let u = m.unit as int;
    &&& floor_div(r.0 - m.origin.0, u) <= c.0
    &&& c.0 < ceil_div(r.0 - m.origin.0 + r.2, u)
    &&& floor_div(r.1 - m.origin.1, u) <= c.1
    &&& c.1 < ceil_div(r.1 - m.origin.1 + r.3, u)
}

/// A cell that one of the first `n` obstacles blocks.
pub open spec fn blocked_by_first(m: Maze, n: int, c: Cell) -> bool {
    exists|j: int| 0 <= j < n && #[trigger] rect_blocks(m, m.walls@[j], c)
}

/// The set of cells that the scene's obstacles block.
pub open spec fn maze_blocked(m: Maze) -> Set<Cell> {
    Set::new(|c: Cell| blocked_by_first(m, m.walls@.len() as int, c))
}

/// A quotient is pinned down by the bounds it leaves on the dividend.
proof fn lemma_div_unique(x: int, u: int, q: int)
    requires
        u > 0,
        q * u <= x < q * u + u,
    ensures
        x / u == q,
{
    lemma_fundamental_div_mod_converse(x, u, q, x - q * u);
}

/// Floor of `a / u`, on machine integers.
fn floor_div_exec(a: i64, u: i64) -> (r: i64)
    requires
        u > 0,
        -0x4000_0000_0000_0000 <= a <= 0x4000_0000_0000_0000,
        u <= 0x4000_0000_0000_0000,
    ensures
        r == floor_div(a as int, u as int),
{
    if a >= 0 {
        (a as u64 / u as u64) as i64
    } else {
        let b: u64 = (-a) as u64;
        let q: u64 = (b + (u as u64) - 1) / (u as u64);
        proof {
            let bb = b as int;
            let uu = u as int;
            let qq = q as int;
            lemma_fundamental_div_mod(bb + uu - 1, uu);
            lemma_mod_bound(bb + uu - 1, uu);
            assert(qq * uu <= bb + uu - 1 < qq * uu + uu) by (nonlinear_arith)
                requires
                    bb + uu - 1 == uu * qq + (bb + uu - 1) % uu,
                    0 <= (bb + uu - 1) % uu < uu,
            ;
            assert(qq <= bb) by (nonlinear_arith)
                requires
                    qq * uu <= bb + uu - 1,
                    uu >= 1,
                    bb >= 1,
            ;
            assert((-qq) * uu <= a as int && (a as int) < (-qq) * uu + uu) by (nonlinear_arith)
                requires
                    qq * uu <= bb + uu - 1 < qq * uu + uu,
                    a as int == -bb,
            ;
            lemma_div_unique(a as int, uu, -qq);
        }
        -(q as i64)
    }
}

/// Ceiling of `a / u`, on machine integers.
fn ceil_div_exec(a: i64, u: i64) -> (r: i64)
    requires
        u > 0,
        -0x4000_0000_0000_0000 <= a <= 0x4000_0000_0000_0000,
        u <= 0x4000_0000_0000_0000,
    ensures
        r == ceil_div(a as int, u as int),
{
    let f = floor_div_exec(-a, u);
    proof {
        let na = -(a as int);
        let uu = u as int;
        let ff = f as int;
        lemma_fundamental_div_mod(na, uu);
        lemma_mod_bound(na, uu);
        assert(-0x4000_0000_0000_0000 <= ff <= 0x4000_0000_0000_0000) by (nonlinear_arith)
            requires
                na == uu * ff + na % uu,
                0 <= na % uu < uu,
                -0x4000_0000_0000_0000 <= na <= 0x4000_0000_0000_0000,
                uu >= 1,
        ;
    }
    -f
}

/// `a / u` rounded to the nearest integer, halves away from zero.
fn round_div_exec(a: i64, u: i64) -> (r: i64)
    requires
        u > 0,
        -0x1000_0000_0000_0000 <= a <= 0x1000_0000_0000_0000,
        u <= 0x1000_0000_0000_0000,
    ensures
        r == round_div(a as int, u as int),
{
    if a >= 0 {
        floor_div_exec(2 * a + u, 2 * u)
    } else {
        let f = floor_div_exec(-2 * a + u, 2 * u);
        proof {
            let x = -2 * (a as int) + (u as int);
            let uu = 2 * (u as int);
            lemma_fundamental_div_mod(x, uu);
            lemma_mod_bound(x, uu);
            assert(0 <= f <= x) by (nonlinear_arith)
                requires
                    x == uu * f + x % uu,
                    0 <= x % uu < uu,
                    x >= 0,
                    uu >= 2,
            ;
        }
        -f
    }
}

/// The grid cell nearest to point `p` of the scene.
fn cell_of(m: &Maze, p: (i32, i32)) -> (r: Cell)
    requires
        m.unit > 0,
    ensures
        r == point_cell(*m, p),
{
    let x = round_div_exec(p.0 as i64 - m.origin.0 as i64, m.unit as i64);
    let y = round_div_exec(p.1 as i64 - m.origin.1 as i64, m.unit as i64);
    (x, y)
}

/// Adds `c` to a list of distinct cells, unless it is there already.
fn insert_cell(cells: &mut Vec<Cell>, c: Cell)
    requires
        old(cells)@.no_duplicates(),
    ensures
        final(cells)@.no_duplicates(),
        forall|e: Cell| final(cells)@.contains(e) <==> (old(cells)@.contains(e) || e == c),
{
    let mut i: usize = 0;
    let mut found = false;
    while i < cells.len() && !found
        invariant
            i <= cells@.len(),
            cells@ == old(cells)@,
            found ==> cells@.contains(c),
            !found ==> forall|k: int| 0 <= k < i ==> cells@[k] != c,
        decreases cells@.len() - i,
    {
        let e = cells[i];
        if e.0 == c.0 && e.1 == c.1 {
            found = true;
            proof {
                assert(cells@[i as int] == c);
            }
        }
        i = i + 1;
    }
    if found {
        return;
    }
    cells.push(c);
    proof {
        assert forall|e: Cell| cells@.contains(e) <==> (old(cells)@.contains(e) || e == c) by {
            if e == c {
                assert(cells@[cells@.len() - 1] == c);
            }
            if old(cells)@.contains(e) {
                let k = choose|k: int| 0 <= k < old(cells)@.len() && old(cells)@[k] == e;
                assert(cells@[k] == e);
            }
        }
    }
}

impl Maze {
    /// A usable scene: its fixed-point unit is positive.
    pub open spec fn wf(&self) -> bool {
        self.unit > 0
    }

    /// An empty scene with the given fixed-point unit: everything at zero,
    /// no obstacles.
    pub fn new(unit: i32) -> (r: Maze)
        requires
            unit > 0,
        ensures
            r.wf(),
            r.unit == unit,
            r.origin == (0i32, 0i32),
            r.start == (0i32, 0i32),
            r.end == (0i32, 0i32),
            r.size == (0i32, 0i32),
            r.walls@.len() == 0,
    {
        Maze { unit, origin: (0, 0), start: (0, 0), end: (0, 0), size: (0, 0), walls: Vec::new() }
    }

    /// Rasterizes the scene. The grid is `ceil(size)` cells on each side; the
    /// start and end cells are the points, less the origin, rounded to the
    /// nearest cell; the walls are, each once, every cell that an obstacle
    /// rectangle (less the origin, rounded outward) covers.
    pub fn grid(&self) -> (g: Grid)
        requires
            self.wf(),
        ensures
            g.width == ceil_div(self.size.0 as int, self.unit as int),
            g.height == ceil_div(self.size.1 as int, self.unit as int),
            g.start == point_cell(*self, self.start),
            g.end == point_cell(*self, self.end),
            g.walls@.no_duplicates(),
            g.walls@.to_set() == maze_blocked(*self),
    {
        let u = self.unit as i64;
        let mut walls: Vec<Cell> = Vec::new();
        let mut i: usize = 0;
        while i < self.walls.len()
            invariant
                u == self.unit,
                u > 0,
                i <= self.walls@.len(),
                walls@.no_duplicates(),
                forall|c: Cell| walls@.contains(c) <==> blocked_by_first(*self, i as int, c),
            decreases self.walls@.len() - i,
        {
            let w = self.walls[i];
            let min_x = floor_div_exec(w.0 as i64 - self.origin.0 as i64, u);
            let min_y = floor_div_exec(w.1 as i64 - self.origin.1 as i64, u);
            let max_x = ceil_div_exec(w.0 as i64 - self.origin.0 as i64 + w.2 as i64, u);
            let max_y = ceil_div_exec(w.1 as i64 - self.origin.1 as i64 + w.3 as i64, u);
            proof {
                bound_quotients(w.0 - self.origin.0, u as int);
                bound_quotients(w.1 - self.origin.1, u as int);
                bound_quotients(w.0 - self.origin.0 + w.2, u as int);
                bound_quotients(w.1 - self.origin.1 + w.3, u as int);
            }
            let mut y = min_y;
            while y < max_y
                invariant
                    u == self.unit,
                    u > 0,
                    i < self.walls@.len(),
                    w == self.walls@[i as int],
                    min_x == floor_div(w.0 - self.origin.0, u as int),
                    max_x == ceil_div(w.0 - self.origin.0 + w.2, u as int),
                    min_y == floor_div(w.1 - self.origin.1, u as int),
                    max_y == ceil_div(w.1 - self.origin.1 + w.3, u as int),
                    -0x2_0000_0000 <= min_x <= 0x2_0000_0000,
                    -0x2_0000_0000 <= max_x <= 0x2_0000_0000,
                    -0x2_0000_0000 <= max_y <= 0x2_0000_0000,
                    min_y <= y <= max_y || (y == min_y && max_y <= min_y),
                    walls@.no_duplicates(),
                    forall|c: Cell| walls@.contains(c) <==> (blocked_by_first(*self, i as int, c)
                        || (rect_blocks(*self, w, c) && c.1 < y)),
                decreases max_y - y,
            {
                let mut x = min_x;
                while x < max_x
                    invariant
                        u == self.unit,
                        u > 0,
                        i < self.walls@.len(),
                        w == self.walls@[i as int],
                        min_x == floor_div(w.0 - self.origin.0, u as int),
                        max_x == ceil_div(w.0 - self.origin.0 + w.2, u as int),
                        min_y == floor_div(w.1 - self.origin.1, u as int),
                        max_y == ceil_div(w.1 - self.origin.1 + w.3, u as int),
                        min_y <= y < max_y,
                        -0x2_0000_0000 <= max_x <= 0x2_0000_0000,
                        min_x <= x <= max_x || (x == min_x && max_x <= min_x),
                        walls@.no_duplicates(),
                        forall|c: Cell| walls@.contains(c) <==> (blocked_by_first(*self, i as int, c)
                            || (rect_blocks(*self, w, c) && (c.1 < y || (c.1 == y && c.0 < x)))),
                    decreases max_x - x,
                {
                    insert_cell(&mut walls, (x, y));
                    x = x + 1;
                }
                y = y + 1;
            }
            proof {
                assert forall|c: Cell| walls@.contains(c) <==> blocked_by_first(*self, i + 1, c) by {
                    if rect_blocks(*self, w, c) {
                        assert(blocked_by_first(*self, i + 1, c));
                    }
                    if blocked_by_first(*self, i + 1, c) {
                        let j = choose|j: int| 0 <= j < i + 1 && #[trigger] rect_blocks(*self, self.walls@[j], c);
                        if j < i {
                            assert(blocked_by_first(*self, i as int, c));
                        }
                    }
                    if blocked_by_first(*self, i as int, c) {
                        let j = choose|j: int| 0 <= j < i && #[trigger] rect_blocks(*self, self.walls@[j], c);
                        assert(0 <= j < i + 1 && rect_blocks(*self, self.walls@[j], c));
                    }
                }
            }
            i = i + 1;
        }
        proof {
            assert(walls@.to_set() =~= maze_blocked(*self));
        }
        let start = cell_of(self, self.start);
        let end = cell_of(self, self.end);
        let width = ceil_div_exec(self.size.0 as i64, u);
        let height = ceil_div_exec(self.size.1 as i64, u);
        Grid { start, end, width, height, walls }
    }
}

/// Floor and ceiling quotients of a coordinate difference stay small.
proof fn bound_quotients(a: int, u: int)
    requires
        u > 0,
        -0x2_0000_0000 <= a <= 0x2_0000_0000,
    ensures
        -0x2_0000_0000 <= floor_div(a, u) <= 0x2_0000_0000,
        -0x2_0000_0000 <= ceil_div(a, u) <= 0x2_0000_0000,
{
    let uu = u as int;
    lemma_fundamental_div_mod(a as int, uu);
    lemma_mod_bound(a as int, uu);
    lemma_fundamental_div_mod(-(a as int), uu);
    lemma_mod_bound(-(a as int), uu);
    let f = (a as int) / uu;
    let g = (-(a as int)) / uu;
    assert(-0x2_0000_0000 <= f <= 0x2_0000_0000) by (nonlinear_arith)
        requires
            a as int == uu * f + (a as int) % uu,
            0 <= (a as int) % uu < uu,
            -0x2_0000_0000 <= a <= 0x2_0000_0000,
            uu >= 1,
    ;
    assert(-0x2_0000_0000 <= g <= 0x2_0000_0000) by (nonlinear_arith)
        requires
            -(a as int) == uu * g + (-(a as int)) % uu,
            0 <= (-(a as int)) % uu < uu,
            -0x2_0000_0000 <= a <= 0x2_0000_0000,
            uu >= 1,
    ;
}

/// Obstacles block conservatively: every cell whose open interior meets the
/// open interior of an obstacle rectangle is blocked. In scene coordinates,
/// cell `c` spans `[c * unit, (c + 1) * unit)` past the origin on each axis.
pub proof fn lemma_coverage(m: Maze, i: int, c: Cell)
    requires
        m.wf(),
        0 <= i < m.walls@.len(),
        c.0 * m.unit < m.walls@[i].0 - m.origin.0 + m.walls@[i].2,
        m.walls@[i].0 - m.origin.0 < (c.0 + 1) * m.unit,
        c.1 * m.unit < m.walls@[i].1 - m.origin.1 + m.walls@[i].3,
        m.walls@[i].1 - m.origin.1 < (c.1 + 1) * m.unit,
    ensures
        maze_blocked(m).contains(c),
{
    let r = m.walls@[i];
    lemma_cell_span(r.0 - m.origin.0, r.2 as int, m.unit as int, c.0 as int);
    lemma_cell_span(r.1 - m.origin.1, r.3 as int, m.unit as int, c.1 as int);
    assert(rect_blocks(m, r, c));
    assert(blocked_by_first(m, m.walls@.len() as int, c));
}

/// On one axis: a cell `[x * u, (x + 1) * u)` that overlaps `(lo, lo + len)`
/// lies within the outward-rounded span of the interval.
proof fn lemma_cell_span(lo: int, len: int, u: int, x: int)
    requires
        u > 0,
        x * u < lo + len,
        lo < (x + 1) * u,
    ensures
        floor_div(lo, u) <= x < ceil_div(lo + len, u),
{
    lemma_fundamental_div_mod(lo, u);
    lemma_mod_bound(lo, u);
    lemma_fundamental_div_mod(-(lo + len), u);
    lemma_mod_bound(-(lo + len), u);
    let f = lo / u;
    let g = (-(lo + len)) / u;
    assert(f <= x) by (nonlinear_arith)
        requires
            lo == u * f + lo % u,
            0 <= lo % u < u,
            lo < (x + 1) * u,
            u > 0,
    ;
    assert(x < -g) by (nonlinear_arith)
        requires
            -(lo + len) == u * g + (-(lo + len)) % u,
            0 <= (-(lo + len)) % u < u,
            x * u < lo + len,
            u > 0,
    ;
}

} // verus!

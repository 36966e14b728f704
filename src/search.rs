use vstd::prelude::*;
use crate::cell::{Cell, adjacent, manhattan, d};

verus! {

/// A grid of `width` by `height` unit cells, with the cells that obstacles
/// block, and the cells where a path starts and ends. Start and end may lie
/// outside the grid; `walls` may name cells outside it too.
pub struct Grid {
    pub start: Cell,
    pub end: Cell,
    pub width: i64,
    pub height: i64,
    pub walls: Vec<Cell>,
}

/// A cell inside `[0, width) x [0, height)`.
pub open spec fn in_bounds(g: Grid, c: Cell) -> bool {
    0 <= c.0 < g.width && 0 <= c.1 < g.height
}

/// One move of the search: from a cell inside the grid to an adjacent cell
/// inside the grid that no wall blocks.
pub open spec fn step(g: Grid, a: Cell, b: Cell) -> bool {
    &&& in_bounds(g, a)
    &&& in_bounds(g, b)
    &&& !g.walls@.contains(b)
    &&& adjacent(a, b)
}

/// A nonempty sequence of cells, each one move from the one before.
pub open spec fn is_walk(g: Grid, p: Seq<Cell>) -> bool {
    &&& p.len() >= 1
    &&& forall|i: int| 0 <= i < p.len() - 1 ==> #[trigger] step(g, p[i], p[i + 1])
}

/// A walk from the grid's start cell to its end cell.
pub open spec fn is_path(g: Grid, p: Seq<Cell>) -> bool {
    &&& is_walk(g, p)
    &&& p[0] == g.start
    &&& p.last() == g.end
}

/// Some path leads from start to end.
pub open spec fn reachable(g: Grid) -> bool {
    exists|p: Seq<Cell>| is_path(g, p)
}

/// Row-major index of an in-bounds cell.
pub open spec fn cidx(w: int, c: Cell) -> int {
    c.1 * w + c.0
}

/// The cell at a row-major index.
pub open spec fn cell_at(w: int, k: int) -> Cell {
    ((k % w) as i64, (k / w) as i64)
}

/// An in-bounds cell has an index in the table, and maps back to itself.
proof fn lemma_index_of_cell(g: Grid, c: Cell)
    requires
        g.width >= 1,
        in_bounds(g, c),
    ensures
        0 <= cidx(g.width as int, c) < g.width * g.height,
        cell_at(g.width as int, cidx(g.width as int, c)) == c,
{
    let w = g.width as int;
    let k = cidx(w, c);
    assert(0 <= k < w * g.height) by (nonlinear_arith)
        requires
            k == c.1 * w + c.0,
            0 <= c.0 < w,
            0 <= c.1 < g.height,
    ;
    vstd::arithmetic::div_mod::lemma_fundamental_div_mod_converse(k, w, c.1 as int, c.0 as int);
}

/// Every index of the table names an in-bounds cell, and maps back to itself.
proof fn lemma_cell_of_index(g: Grid, k: int)
    requires
        g.width >= 1,
        0 <= k < g.width * g.height,
    ensures
        in_bounds(g, cell_at(g.width as int, k)),
        cidx(g.width as int, cell_at(g.width as int, k)) == k,
{
    let w = g.width as int;
    vstd::arithmetic::div_mod::lemma_fundamental_div_mod(k, w);
    vstd::arithmetic::div_mod::lemma_mod_bound(k, w);
    let q = k / w;
    let r = k % w;
    assert(0 <= q < g.height) by (nonlinear_arith)
        requires
            k == w * q + r,
            0 <= r < w,
            0 <= k < w * g.height,
    ;
    assert((q as i64) as int == q && (r as i64) as int == r);
    assert(q * w + r == k) by (nonlinear_arith)
        requires
            k == w * q + r,
    ;
}

/// Number of entries of a search-state table that are not yet closed.
pub open spec fn count_unclosed(s: Seq<u8>) -> nat
    decreases s.len(),
{
    if s.len() == 0 {
        0
    } else {
        count_unclosed(s.drop_last()) + if s.last() != 2 { 1nat } else { 0nat }
    }
}

/// How writing one entry changes the count of unclosed entries.
proof fn lemma_count_update(s: Seq<u8>, i: int, v: u8)
    requires
        0 <= i < s.len(),
    ensures
        count_unclosed(s.update(i, v)) + (if s[i] != 2 { 1int } else { 0int })
            == count_unclosed(s) + (if v != 2 { 1int } else { 0int }),
    decreases s.len(),
{
    let t = s.update(i, v);
    if i == s.len() - 1 {
        assert(t.drop_last() =~= s.drop_last());
    } else {
        assert(t.drop_last() =~= s.drop_last().update(i, v));
        lemma_count_update(s.drop_last(), i, v);
    }
}

/// The heuristic score of table entry `k`: cost so far plus distance to go.
pub open spec fn f_score(g: Grid, gs: Seq<usize>, k: int) -> int {
    gs[k] + manhattan(cell_at(g.width as int, k), g.end)
}

/// Every seen cell but the start was entered from a seen cell, by one move,
/// at a higher cost.
pub open spec fn preds_ok(g: Grid, gs: Seq<usize>, ps: Seq<usize>, st: Seq<u8>) -> bool {
    let w = g.width as int;
    let n = g.width * g.height;
    let s = cidx(w, g.start);
    forall|k: int|
        0 <= k < n && #[trigger] st[k] != 0 && k != s ==> {
            &&& ps[k] < n
            &&& st[ps[k] as int] != 0
            &&& gs[ps[k] as int] < gs[k]
            &&& step(g, cell_at(w, ps[k] as int), cell_at(w, k))
        }
}

/// No walk from the start reaches the cell at index `k` in fewer moves than
/// its recorded cost.
pub open spec fn cost_bound(g: Grid, gs: Seq<usize>, k: int) -> bool {
    forall|q: Seq<Cell>|
        #[trigger] is_walk(g, q) && q[0] == g.start && q.last() == cell_at(g.width as int, k)
            ==> gs[k] + 1 <= q.len()
}

/// What holds of the search state between steps. `bl` marks the walls, `gs`
/// holds the best known costs, `ps` the predecessors, and `st` the state of
/// each cell (0 unseen, 1 open, 2 closed); `closed` counts the closed cells.
/// Every closed cell but `ex` has had its neighbours relaxed.
#[verifier::opaque]
pub open spec fn search_inv(
    g: Grid,
    bl: Seq<bool>,
    gs: Seq<usize>,
    ps: Seq<usize>,
    st: Seq<u8>,
    closed: int,
    ex: int,
) -> bool {
    let w = g.width as int;
    let n = g.width * g.height;
    let s = cidx(w, g.start);
    &&& g.width >= 1 && g.height >= 1
    &&& n <= usize::MAX
    &&& in_bounds(g, g.start) && in_bounds(g, g.end) && g.start != g.end
    &&& bl.len() == n && gs.len() == n && ps.len() == n && st.len() == n
    &&& forall|k: int| 0 <= k < n ==> #[trigger] bl[k] == g.walls@.contains(cell_at(w, k))
    &&& st[s] != 0 && gs[s] == 0
    &&& st[s] != 2 ==> forall|k: int| 0 <= k < n && k != s ==> #[trigger] st[k] == 0
    &&& forall|k: int| 0 <= k < n ==> #[trigger] st[k] <= 2
    &&& preds_ok(g, gs, ps, st)
    &&& forall|k: int| 0 <= k < n && #[trigger] st[k] != 0 ==> gs[k] <= closed
    &&& closed + count_unclosed(st) == n
    &&& st[cidx(w, g.end)] != 2
    &&& forall|k: int| 0 <= k < n && #[trigger] st[k] == 2 ==> cost_bound(g, gs, k)
    &&& forall|k: int, c: Cell|
        0 <= k < n && st[k] == 2 && k != ex && #[trigger] step(g, cell_at(w, k), c) ==> {
            &&& st[cidx(w, c)] != 0
            &&& st[cidx(w, c)] == 2 || gs[cidx(w, c)] <= gs[k] + 1
        }
}

/// A fresh table has every entry unclosed.
proof fn lemma_count_fresh(n: nat)
    ensures
        count_unclosed(Seq::new(n, |i: int| 0u8)) == n,
    decreases n,
{
    if n > 0 {
        assert(Seq::new(n, |i: int| 0u8).drop_last() =~= Seq::new((n - 1) as nat, |i: int| 0u8));
        lemma_count_fresh((n - 1) as nat);
    }
}

/// A table of `n` copies of `x`.
fn filled<T: Copy>(x: T, n: usize) -> (v: Vec<T>)
    ensures
        v@ == Seq::new(n as nat, |i: int| x),
{
    let mut v: Vec<T> = Vec::new();
    while v.len() < n
        invariant
            v@.len() <= n,
            forall|i: int| 0 <= i < v@.len() ==> v@[i] == x,
        decreases n - v@.len(),
    {
        v.push(x);
    }
    assert(v@ =~= Seq::new(n as nat, |i: int| x));
    v
}

/// The cell at row-major index `k` of a grid `w` cells wide.
fn cell_of_index(g: &Grid, w: usize, k: usize) -> (c: Cell)
    requires
        w == g.width,
        w >= 1,
        k < g.width * g.height,
    ensures
        c == cell_at(w as int, k as int),
{
    proof {
        lemma_cell_of_index(*g, k as int);
    }
    ((k % w) as i64, (k / w) as i64)
}

/// The row-major index of an in-bounds cell.
fn index_of_cell(g: &Grid, w: usize, c: Cell) -> (k: usize)
    requires
        w == g.width,
        w >= 1,
        in_bounds(*g, c),
        g.width * g.height <= usize::MAX,
    ensures
        k == cidx(w as int, c),
        k < g.width * g.height,
        cell_at(w as int, k as int) == c,
{
    proof {
        lemma_index_of_cell(*g, c);
        assert((c.1 as usize) * w <= c.1 * w + c.0);
    }
    (c.1 as usize) * w + (c.0 as usize)
}

/// The move from closed cell `k` to `c`, where the search may make it, has
/// been taken into account: `c` has been seen, and is closed or costs at most
/// one more than `k`.
pub open spec fn relaxed(g: Grid, gs: Seq<usize>, st: Seq<u8>, k: int, c: Cell) -> bool {
    let w = g.width as int;
    step(g, cell_at(w, k), c) ==> {
        &&& st[cidx(w, c)] != 0
        &&& st[cidx(w, c)] == 2 || gs[cidx(w, c)] <= gs[k] + 1
    }
}

/// Relaxes the move from the closed cell `best` to its neighbour `c`: where
/// `c` is a cell the search may enter and not yet closed, and the move
/// improves on its best known cost, records the move and opens `c`.
#[verifier::rlimit(80)]
fn visit(
    grid: &Grid,
    w: usize,
    bl: &Vec<bool>,
    gs: &mut Vec<usize>,
    ps: &mut Vec<usize>,
    st: &mut Vec<u8>,
    best: usize,
    c: Cell,
    Ghost(closed): Ghost<int>,
)
    requires
        w == grid.width,
        search_inv(*grid, bl@, old(gs)@, old(ps)@, old(st)@, closed, best as int),
        best < grid.width * grid.height,
        old(st)@[best as int] == 2,
        old(gs)@[best as int] < closed,
        adjacent(cell_at(w as int, best as int), c),
    ensures
        search_inv(*grid, bl@, final(gs)@, final(ps)@, final(st)@, closed, best as int),
        final(st)@[best as int] == 2,
        final(gs)@[best as int] == old(gs)@[best as int],
        relaxed(*grid, final(gs)@, final(st)@, best as int, c),
        count_unclosed(final(st)@) == count_unclosed(old(st)@),
        forall|e: Cell| #[trigger] relaxed(*grid, old(gs)@, old(st)@, best as int, e)
            ==> relaxed(*grid, final(gs)@, final(st)@, best as int, e),
        forall|k: int|
            0 <= k < grid.width * grid.height && old(st)@[k] != 0 ==> {
                &&& #[trigger] final(st)@[k] != 0
                &&& final(gs)@[k] <= old(gs)@[k]
            },
        forall|k: int|
            0 <= k < grid.width * grid.height && #[trigger] old(st)@[k] == 2 ==> {
                &&& final(st)@[k] == 2
                &&& final(gs)@[k] == old(gs)@[k]
            },
        final(gs)@.len() == old(gs)@.len(),
        final(ps)@.len() == old(ps)@.len(),
        final(st)@.len() == old(st)@.len(),
{
    proof {
        reveal(search_inv);
    }
    if c.0 < 0 || c.1 < 0 || c.0 >= grid.width || c.1 >= grid.height {
        return;
    }
    let k = index_of_cell(grid, w, c);
    if bl[k] || st[k] == 2 {
        return;
    }
    let t = gs[best] + 1;
    if st[k] == 0 || t < gs[k] {
        proof {
            lemma_count_update(st@, k as int, 1u8);
            lemma_cell_of_index(*grid, best as int);
        }
        gs.set(k, t);
        ps.set(k, best);
        st.set(k, 1);
        proof {
            let ww = w as int;
            let n = grid.width * grid.height;
            let s = cidx(ww, grid.start);
            lemma_index_of_cell(*grid, grid.start);
            lemma_index_of_cell(*grid, grid.end);
            assert(k != s);
            assert(old(st)@[s] == 2);
            assert(st@[s] == old(st)@[s] && gs@[s] == old(gs)@[s]);
            assert(st@[cidx(ww, grid.end)] != 2);
            assert forall|j: int|
                0 <= j < n && #[trigger] st@[j] != 0 && j != s implies {
                    &&& ps@[j] < n
                    &&& st@[ps@[j] as int] != 0
                    &&& gs@[ps@[j] as int] < gs@[j]
                    &&& step(*grid, cell_at(ww, ps@[j] as int), cell_at(ww, j))
                } by {
                if j != k {
                    assert(old(st)@[j] != 0);
                }
            }
            assert forall|j: int, e: Cell|
                0 <= j < n && st@[j] == 2 && j != best && #[trigger] step(*grid, cell_at(ww, j), e) implies {
                    &&& st@[cidx(ww, e)] != 0
                    &&& st@[cidx(ww, e)] == 2 || gs@[cidx(ww, e)] <= gs@[j] + 1
                } by {
                assert(old(st)@[j] == 2);
                lemma_index_of_cell(*grid, e);
            }
            assert forall|e: Cell| #[trigger] relaxed(*grid, old(gs)@, old(st)@, best as int, e)
                implies relaxed(*grid, gs@, st@, best as int, e) by {
                if step(*grid, cell_at(ww, best as int), e) {
                    lemma_index_of_cell(*grid, e);
                }
            }
            lemma_index_of_cell(*grid, c);
        }
    }
}

/// Picks the open cell with the least f-score; among equal scores, the one
/// with the greatest cost so far (the most progress made).
fn select(grid: &Grid, w: usize, n: usize, gs: &Vec<usize>, st: &Vec<u8>) -> (r: (bool, usize))
    requires
        w == grid.width,
        w >= 1,
        n == grid.width * grid.height,
        gs@.len() == n,
        st@.len() == n,
    ensures
        r.0 <==> exists|k: int| 0 <= k < n && #[trigger] st@[k] == 1,
        r.0 ==> r.1 < n && st@[r.1 as int] == 1,
        r.0 ==> forall|k: int|
            0 <= k < n && #[trigger] st@[k] == 1 ==> f_score(*grid, gs@, r.1 as int) <= f_score(*grid, gs@, k),
{
    let mut found = false;
    let mut best: usize = 0;
    let mut best_f: u128 = 0;
    let mut k: usize = 0;
    while k < n
        invariant
            w == grid.width,
            w >= 1,
            n == grid.width * grid.height,
            gs@.len() == n,
            st@.len() == n,
            k <= n,
            found <==> exists|j: int| 0 <= j < k && #[trigger] st@[j] == 1,
            found ==> best < k && st@[best as int] == 1 && best_f == f_score(*grid, gs@, best as int),
            found ==> forall|j: int| 0 <= j < k && #[trigger] st@[j] == 1 ==> best_f <= f_score(*grid, gs@, j),
        decreases n - k,
    {
        if st[k] == 1 {
            let c = cell_of_index(grid, w, k);
            let f = gs[k] as u128 + d(c, grid.end);
            if !found || f < best_f || (f == best_f && gs[k] > gs[best]) {
                found = true;
                best = k;
                best_f = f;
            }
        }
        k = k + 1;
    }
    (found, best)
}

/// The plain facts of the search invariant: sizes, ends, the start entry
/// and the predecessor links.
proof fn lemma_inv_basics(
    g: Grid,
    bl: Seq<bool>,
    gs: Seq<usize>,
    ps: Seq<usize>,
    st: Seq<u8>,
    closed: int,
    ex: int,
)
    requires
        search_inv(g, bl, gs, ps, st, closed, ex),
    ensures
        g.width >= 1 && g.height >= 1,
        g.width * g.height <= usize::MAX,
        in_bounds(g, g.start) && in_bounds(g, g.end) && g.start != g.end,
        bl.len() == g.width * g.height,
        gs.len() == g.width * g.height,
        ps.len() == g.width * g.height,
        st.len() == g.width * g.height,
        st[cidx(g.width as int, g.start)] != 0,
        gs[cidx(g.width as int, g.start)] == 0,
        preds_ok(g, gs, ps, st),
{
    reveal(search_inv);
}

/// Along a walk, cells `j - i` moves apart are at most that far apart.
proof fn lemma_walk_distance(g: Grid, q: Seq<Cell>, i: int, j: int)
    requires
        is_walk(g, q),
        0 <= i <= j < q.len(),
    ensures
        manhattan(q[i], q[j]) <= j - i,
    decreases j - i,
{
    if i < j {
        lemma_walk_distance(g, q, i, j - 1);
        assert(step(g, q[j - 1], q[j - 1 + 1]));
    }
}

/// On a walk that starts on a closed cell and ends on one that is not, some
/// closed cell is followed by one that is not.
proof fn lemma_frontier(g: Grid, st: Seq<u8>, q: Seq<Cell>, hi: int) -> (j: int)
    requires
        g.width >= 1,
        st.len() == g.width * g.height,
        is_walk(g, q),
        1 <= hi < q.len(),
        forall|i: int| 0 <= i < q.len() ==> in_bounds(g, #[trigger] q[i]),
        st[cidx(g.width as int, q[0])] == 2,
        st[cidx(g.width as int, q[hi])] != 2,
    ensures
        1 <= j <= hi,
        st[cidx(g.width as int, q[j - 1])] == 2,
        st[cidx(g.width as int, q[j])] != 2,
    decreases hi,
{
    if st[cidx(g.width as int, q[hi - 1])] == 2 {
        hi
    } else {
        lemma_frontier(g, st, q, hi - 1)
    }
}

/// The open cell of least f-score has its optimal cost: the heuristic never
/// overestimates, and changes by at most one per move.
#[verifier::rlimit(40)]
proof fn lemma_pop_optimal(
    g: Grid,
    bl: Seq<bool>,
    gs: Seq<usize>,
    ps: Seq<usize>,
    st: Seq<u8>,
    closed: int,
    best: int,
)
    requires
        search_inv(g, bl, gs, ps, st, closed, g.width * g.height),
        0 <= best < g.width * g.height,
        st[best] == 1,
        forall|k: int| 0 <= k < g.width * g.height && #[trigger] st[k] == 1
            ==> f_score(g, gs, best) <= f_score(g, gs, k),
    ensures
        cost_bound(g, gs, best),
{
    reveal(search_inv);
    let w = g.width as int;
    let n = g.width * g.height;
    let s = cidx(w, g.start);
    lemma_index_of_cell(g, g.start);
    lemma_cell_of_index(g, best);
    assert forall|q: Seq<Cell>|
        #[trigger] is_walk(g, q) && q[0] == g.start && q.last() == cell_at(w, best)
            implies gs[best] + 1 <= q.len() by {
        if st[s] != 2 {
            assert(best == s);
        } else if gs[best] + 1 > q.len() {
            assert(q.len() >= 2);
            assert forall|i: int| 0 <= i < q.len() implies in_bounds(g, #[trigger] q[i]) by {
                if i < q.len() - 1 {
                    assert(step(g, q[i], q[i + 1]));
                } else {
                    assert(step(g, q[i - 1], q[i - 1 + 1]));
                }
            }
            let last = q.len() - 1;
            let j = lemma_frontier(g, st, q, last);
            let a = q[j - 1];
            let b = q[j];
            let ka = cidx(w, a);
            let kb = cidx(w, b);
            lemma_index_of_cell(g, a);
            lemma_index_of_cell(g, b);
            // the prefix up to `a` bounds its cost
            let pre = q.subrange(0, j);
            assert forall|i: int| 0 <= i < pre.len() - 1 implies #[trigger] step(g, pre[i], pre[i + 1]) by {
                assert(step(g, q[i], q[i + 1]));
            }
            assert(is_walk(g, pre));
            assert(pre.last() == cell_at(w, ka));
            assert(gs[ka] + 1 <= j);
            // `b` was reached from `a`
            assert(step(g, q[j - 1], q[j - 1 + 1]));
            assert(step(g, cell_at(w, ka), b));
            assert(st[kb] == 1);
            assert(gs[kb] <= j);
            lemma_walk_distance(g, q, j, last);
            crate::cell::lemma_manhattan_triangle(b, cell_at(w, best), g.end);
            assert(f_score(g, gs, kb) < f_score(g, gs, best));
        }
    }
}

/// In a closed search (no cell open), every walk from the start stays on
/// closed cells.
#[verifier::rlimit(40)]
proof fn lemma_closed_region(
    g: Grid,
    bl: Seq<bool>,
    gs: Seq<usize>,
    ps: Seq<usize>,
    st: Seq<u8>,
    closed: int,
    q: Seq<Cell>,
)
    requires
        search_inv(g, bl, gs, ps, st, closed, g.width * g.height),
        forall|k: int| 0 <= k < g.width * g.height ==> #[trigger] st[k] != 1,
        is_walk(g, q),
        q[0] == g.start,
    ensures
        forall|i: int| 0 <= i < q.len() ==> in_bounds(g, #[trigger] q[i]) && st[cidx(g.width as int, q[i])] == 2,
        q.last() != g.end,
    decreases q.len(),
{
    reveal(search_inv);
    let w = g.width as int;
    lemma_index_of_cell(g, g.start);
    if q.len() > 1 {
        let p = q.drop_last();
        assert forall|i: int| 0 <= i < p.len() - 1 implies #[trigger] step(g, p[i], p[i + 1]) by {
            assert(step(g, q[i], q[i + 1]));
        }
        lemma_closed_region(g, bl, gs, ps, st, closed, p);
        let a = q[q.len() - 2];
        let b = q[q.len() - 1];
        assert(p[q.len() - 2] == a);
        assert(step(g, q[q.len() - 2], q[q.len() - 2 + 1]));
        lemma_index_of_cell(g, a);
        lemma_index_of_cell(g, b);
        assert(step(g, cell_at(w, cidx(w, a)), b));
        assert forall|i: int| 0 <= i < q.len() implies in_bounds(g, #[trigger] q[i]) && st[cidx(w, q[i])] == 2 by {
            if i < q.len() - 1 {
                assert(p[i] == q[i]);
            }
        }
    }
}

/// Follows the predecessors from the end cell back to the start, and returns
/// the path they trace, from start to end.
fn trace(
    grid: &Grid,
    w: usize,
    bl: &Vec<bool>,
    gs: &Vec<usize>,
    ps: &Vec<usize>,
    st: &Vec<u8>,
    Ghost(closed): Ghost<int>,
) -> (r: Vec<Cell>)
    requires
        w == grid.width,
        search_inv(*grid, bl@, gs@, ps@, st@, closed, grid.width * grid.height),
        st@[cidx(w as int, grid.end)] != 0,
    ensures
        is_path(*grid, r@),
        r@.len() <= gs@[cidx(w as int, grid.end)] + 1,
{
    let ghost ww = w as int;
    let ghost n = grid.width * grid.height;
    proof {
        lemma_inv_basics(*grid, bl@, gs@, ps@, st@, closed, grid.width * grid.height);
        lemma_index_of_cell(*grid, grid.start);
        lemma_index_of_cell(*grid, grid.end);
    }
    let s = index_of_cell(grid, w, grid.start);
    let e = index_of_cell(grid, w, grid.end);
    let mut back: Vec<Cell> = Vec::new();
    back.push(grid.end);
    let mut k = e;
    while k != s
        invariant
            w == grid.width,
            ww == w,
            n == grid.width * grid.height,
            s == cidx(ww, grid.start),
            e == cidx(ww, grid.end),
            preds_ok(*grid, gs@, ps@, st@),
            gs@.len() == n && ps@.len() == n && st@.len() == n,
            grid.width >= 1,
            k < n,
            st@[k as int] != 0,
            back@.len() >= 1,
            back@[0] == grid.end,
            back@.last() == cell_at(ww, k as int),
            forall|i: int| 0 <= i < back@.len() - 1 ==> #[trigger] step(*grid, back@[i + 1], back@[i]),
            back@.len() - 1 + gs@[k as int] <= gs@[e as int],
        decreases gs@[k as int],
    {
        let ghost prev = back@;
        k = ps[k];
        let c = cell_of_index(grid, w, k);
        back.push(c);
        proof {
            assert forall|i: int| 0 <= i < back@.len() - 1 implies #[trigger] step(*grid, back@[i + 1], back@[i]) by {
                if i < back@.len() - 2 {
                    assert(back@[i] == prev[i] && back@[i + 1] == prev[i + 1]);
                }
            }
        }
    }
    let len = back.len();
    let mut out: Vec<Cell> = Vec::new();
    let mut i: usize = len;
    while i > 0
        invariant
            len == back@.len(),
            len >= 1,
            i <= len,
            out@.len() == len - i,
            forall|j: int| 0 <= j < out@.len() ==> out@[j] == back@[len - 1 - j],
        decreases i,
    {
        i = i - 1;
        out.push(back[i]);
    }
    proof {
        lemma_index_of_cell(*grid, grid.start);
        assert forall|j: int| 0 <= j < out@.len() - 1 implies #[trigger] step(*grid, out@[j], out@[j + 1]) by {
            let m = len - 2 - j;
            assert(step(*grid, back@[m + 1], back@[m]));
        }
    }
    out
}

/// Marks, for each in-bounds cell by its row-major index, whether a wall
/// stands on it.
fn wall_table(grid: &Grid, w: usize, n: usize) -> (bl: Vec<bool>)
    requires
        w == grid.width,
        w >= 1,
        n == grid.width * grid.height,
    ensures
        bl@.len() == n,
        forall|k: int| 0 <= k < n ==> #[trigger] bl@[k] == grid.walls@.contains(cell_at(w as int, k)),
{
    let ghost ww = w as int;
    let mut bl: Vec<bool> = filled(false, n);
    let mut i: usize = 0;
    while i < grid.walls.len()
        invariant
            w == grid.width,
            ww == w,
            w >= 1,
            n == grid.width * grid.height,
            i <= grid.walls@.len(),
            bl@.len() == n,
            forall|k: int| 0 <= k < n ==> #[trigger] bl@[k]
                == exists|j: int| 0 <= j < i && grid.walls@[j] == cell_at(ww, k),
        decreases grid.walls@.len() - i,
    {
        let c = grid.walls[i];
        let ghost old_bl = bl@;
        if 0 <= c.0 && c.0 < grid.width && 0 <= c.1 && c.1 < grid.height {
            let k = index_of_cell(grid, w, c);
            bl.set(k, true);
            proof {
                assert forall|k2: int| 0 <= k2 < n implies #[trigger] bl@[k2]
                    == exists|j: int| 0 <= j < i + 1 && grid.walls@[j] == cell_at(ww, k2) by {
                    if k2 == k {
                        assert(grid.walls@[i as int] == cell_at(ww, k2));
                    } else {
                        assert(bl@[k2] == old_bl[k2]);
                        if grid.walls@[i as int] == cell_at(ww, k2) {
                            lemma_cell_of_index(*grid, k2);
                        }
                    }
                }
            }
        } else {
            proof {
                assert forall|k2: int| 0 <= k2 < n implies #[trigger] bl@[k2]
                    == exists|j: int| 0 <= j < i + 1 && grid.walls@[j] == cell_at(ww, k2) by {
                    if grid.walls@[i as int] == cell_at(ww, k2) {
                        lemma_cell_of_index(*grid, k2);
                    }
                }
            }
        }
        i = i + 1;
    }
    proof {
        assert forall|k: int| 0 <= k < n implies #[trigger] bl@[k] == grid.walls@.contains(cell_at(ww, k)) by {
            if grid.walls@.contains(cell_at(ww, k)) {
                let j = choose|j: int| 0 <= j < grid.walls@.len() && grid.walls@[j] == cell_at(ww, k);
                assert(0 <= j < i && grid.walls@[j] == cell_at(ww, k));
            }
        }
    }
    bl
}

/// Closes the open cell `best`, which is not the end cell.
fn close_cell(
    grid: &Grid,
    w: usize,
    bl: &Vec<bool>,
    gs: &mut Vec<usize>,
    ps: &mut Vec<usize>,
    st: &mut Vec<u8>,
    best: usize,
    Ghost(closed): Ghost<int>,
)
    requires
        w == grid.width,
        search_inv(*grid, bl@, old(gs)@, old(ps)@, old(st)@, closed, grid.width * grid.height),
        best < grid.width * grid.height,
        old(st)@.len() == grid.width * grid.height,
        old(st)@[best as int] == 1,
        best != cidx(w as int, grid.end),
        forall|k: int| 0 <= k < grid.width * grid.height && #[trigger] old(st)@[k] == 1
            ==> f_score(*grid, old(gs)@, best as int) <= f_score(*grid, old(gs)@, k),
    ensures
        search_inv(*grid, bl@, final(gs)@, final(ps)@, final(st)@, closed + 1, best as int),
        final(st)@[best as int] == 2,
        final(gs)@[best as int] < closed + 1,
        count_unclosed(final(st)@) < count_unclosed(old(st)@),
        final(gs)@.len() == old(gs)@.len(),
        final(ps)@.len() == old(ps)@.len(),
        final(st)@.len() == old(st)@.len(),
{
    proof {
        lemma_pop_optimal(*grid, bl@, gs@, ps@, st@, closed, best as int);
        reveal(search_inv);
        lemma_count_update(st@, best as int, 2u8);
        lemma_index_of_cell(*grid, grid.start);
        lemma_index_of_cell(*grid, grid.end);
    }
    let ghost s = cidx(w as int, grid.start);
    st.set(best, 2);
    proof {
        assert(old(st)@[s] == 2 || best == s);
        assert(st@[s] == 2);
        let ww = w as int;
        let n = grid.width * grid.height;
        assert(st@[cidx(ww, grid.end)] != 2);
        assert(closed + 1 + count_unclosed(st@) == n);
        assert(forall|k: int| 0 <= k < n ==> #[trigger] st@[k] <= 2);
        assert forall|k: int, c: Cell|
            0 <= k < n && st@[k] == 2 && k != best && #[trigger] step(*grid, cell_at(ww, k), c) implies {
                &&& st@[cidx(ww, c)] != 0
                &&& st@[cidx(ww, c)] == 2 || gs@[cidx(ww, c)] <= gs@[k] + 1
            } by {
            assert(old(st)@[k] == 2);
            lemma_index_of_cell(*grid, c);
        }
        assert forall|k: int| 0 <= k < n && #[trigger] st@[k] == 2 implies cost_bound(*grid, gs@, k) by {
            if k != best {
                assert(old(st)@[k] == 2);
            }
        }
        assert forall|k: int| 0 <= k < grid.width * grid.height && #[trigger] st@[k] != 0
            implies gs@[k] <= closed + 1 by {
            if k != best {
                assert(old(st)@[k] != 0);
            }
        }
        assert(preds_ok(*grid, gs@, ps@, st@)) by {
            assert forall|k: int| 0 <= k < grid.width * grid.height && #[trigger] st@[k] != 0
                implies old(st)@[k] != 0 by {
                if k != best {
                    assert(old(st)@[k] == st@[k]);
                }
            }
        }
    }
}

/// Relaxes the four moves out of the freshly closed cell `best`.
fn expand(
    grid: &Grid,
    w: usize,
    bl: &Vec<bool>,
    gs: &mut Vec<usize>,
    ps: &mut Vec<usize>,
    st: &mut Vec<u8>,
    best: usize,
    Ghost(closed): Ghost<int>,
)
    requires
        w == grid.width,
        search_inv(*grid, bl@, old(gs)@, old(ps)@, old(st)@, closed, best as int),
        best < grid.width * grid.height,
        old(st)@.len() == grid.width * grid.height,
        old(gs)@.len() == grid.width * grid.height,
        old(st)@[best as int] == 2,
        old(gs)@[best as int] < closed,
    ensures
        search_inv(*grid, bl@, final(gs)@, final(ps)@, final(st)@, closed, grid.width * grid.height),
        count_unclosed(final(st)@) == count_unclosed(old(st)@),
        final(gs)@.len() == old(gs)@.len(),
        final(ps)@.len() == old(ps)@.len(),
        final(st)@.len() == old(st)@.len(),
{
    let ghost ww = w as int;
    let ghost n = grid.width * grid.height;
    let cb = cell_of_index(grid, w, best);
    proof {
        lemma_cell_of_index(*grid, best as int);
    }
    let c1 = (cb.0 - 1, cb.1);
    let c2 = (cb.0 + 1, cb.1);
    let c3 = (cb.0, cb.1 - 1);
    let c4 = (cb.0, cb.1 + 1);
    visit(grid, w, bl, gs, ps, st, best, c1, Ghost(closed));
    visit(grid, w, bl, gs, ps, st, best, c2, Ghost(closed));
    visit(grid, w, bl, gs, ps, st, best, c3, Ghost(closed));
    visit(grid, w, bl, gs, ps, st, best, c4, Ghost(closed));
    proof {
        assert(relaxed(*grid, gs@, st@, best as int, c1));
        assert(relaxed(*grid, gs@, st@, best as int, c2));
        assert(relaxed(*grid, gs@, st@, best as int, c3));
        assert(relaxed(*grid, gs@, st@, best as int, c4));
        assert forall|c: Cell| #[trigger] step(*grid, cell_at(ww, best as int), c)
            implies relaxed(*grid, gs@, st@, best as int, c) by {
            assert(c == c1 || c == c2 || c == c3 || c == c4);
        }
        lemma_relax_done(*grid, bl@, gs@, ps@, st@, closed, best as int);
    }
}

/// Once every move out of `best` is relaxed, no closed cell is left out.
proof fn lemma_relax_done(
    g: Grid,
    bl: Seq<bool>,
    gs: Seq<usize>,
    ps: Seq<usize>,
    st: Seq<u8>,
    closed: int,
    best: int,
)
    requires
        search_inv(g, bl, gs, ps, st, closed, best),
        forall|c: Cell| #[trigger] step(g, cell_at(g.width as int, best), c) ==> relaxed(g, gs, st, best, c),
    ensures
        search_inv(g, bl, gs, ps, st, closed, g.width * g.height),
{
    reveal(search_inv);
    let w = g.width as int;
    assert forall|k: int, c: Cell|
        0 <= k < g.width * g.height && st[k] == 2 && k != g.width * g.height
            && #[trigger] step(g, cell_at(w, k), c) implies {
            &&& st[cidx(w, c)] != 0
            &&& st[cidx(w, c)] == 2 || gs[cidx(w, c)] <= gs[k] + 1
        } by {
        if k == best {
            assert(relaxed(g, gs, st, best, c));
        }
    }
}

impl Grid {
    /// Searches for a shortest path from the start cell to the end cell,
    /// moving up, down, left or right, one cell at a time, within the grid
    /// and never onto a wall. Returns the cells of the path in order, both
    /// ends included, or `None` where no such path exists.
    pub fn path(&self) -> (r: Option<Vec<Cell>>)
        requires
            self.width <= 0 || self.height <= 0 || self.width * self.height <= usize::MAX,
        ensures
            r is Some <==> reachable(*self),
            r matches Some(p) ==> is_path(*self, p@),
            r matches Some(p) ==> forall|q: Seq<Cell>| is_path(*self, q) ==> p@.len() <= q.len(),
            self.start == self.end ==> (r matches Some(p) && p@ == seq![self.start]),
            self.start != self.end && (!in_bounds(*self, self.start) || !in_bounds(*self, self.end))
                ==> r is None,
    {
        if self.start.0 == self.end.0 && self.start.1 == self.end.1 {
            let r = vec![self.start];
            proof {
                assert(is_path(*self, r@));
            }
            return Some(r);
        }
        if self.start.0 < 0 || self.start.1 < 0 || self.start.0 >= self.width || self.start.1 >= self.height
            || self.end.0 < 0 || self.end.1 < 0 || self.end.0 >= self.width || self.end.1 >= self.height
        {
            proof {
                assert forall|p: Seq<Cell>| !is_path(*self, p) by {
                    if is_path(*self, p) {
                        assert(step(*self, p[0], p[0int + 1]));
                        assert(step(*self, p[p.len() - 2], p[p.len() - 2 + 1]));
                    }
                }
            }
            return None;
        }
        proof {
            assert(self.width <= self.width * self.height && self.height <= self.width * self.height)
                by (nonlinear_arith)
                requires
                    self.width >= 1,
                    self.height >= 1,
            ;
        }
        let w = self.width as usize;
        let n = w * (self.height as usize);
        let ghost ww = w as int;
        let bl = wall_table(self, w, n);
        let mut gs: Vec<usize> = filled(0usize, n);
        let mut ps: Vec<usize> = filled(0usize, n);
        let mut st: Vec<u8> = filled(0u8, n);
        let s = index_of_cell(self, w, self.start);
        let e = index_of_cell(self, w, self.end);
        proof {
            lemma_count_fresh(n as nat);
            lemma_count_update(st@, s as int, 1u8);
            lemma_index_of_cell(*self, self.end);
        }
        st.set(s, 1);
        let ghost mut closed: int = 0;
        proof {
            reveal(search_inv);
            assert(s != e);
            assert forall|k: int, c: Cell|
                0 <= k < n && st@[k] == 2 && k != n && #[trigger] step(*self, cell_at(ww, k), c) implies {
                    &&& st@[cidx(ww, c)] != 0
                    &&& st@[cidx(ww, c)] == 2 || gs@[cidx(ww, c)] <= gs@[k] + 1
                } by {
                assert(st@[k] == 0 || k == s);
            }
            assert(search_inv(*self, bl@, gs@, ps@, st@, closed, n as int));
        }
        loop
            invariant
                w == self.width,
                ww == w,
                n == self.width * self.height,
                s == cidx(ww, self.start),
                e == cidx(ww, self.end),
                e < n,
                self.start != self.end,
                in_bounds(*self, self.start),
                in_bounds(*self, self.end),
                bl@.len() == n && gs@.len() == n && ps@.len() == n && st@.len() == n,
                search_inv(*self, bl@, gs@, ps@, st@, closed, n as int),
            decreases count_unclosed(st@),
        {
            let (found, best) = select(self, w, n, &gs, &st);
            if !found {
                proof {
                    assert forall|p: Seq<Cell>| !is_path(*self, p) by {
                        if is_path(*self, p) {
                            lemma_closed_region(*self, bl@, gs@, ps@, st@, closed, p);
                            assert(in_bounds(*self, p[p.len() - 1]));
                        }
                    }
                }
                return None;
            }
            if best == e {
                proof {
                    lemma_pop_optimal(*self, bl@, gs@, ps@, st@, closed, best as int);
                    lemma_index_of_cell(*self, self.end);
                }
                let r = trace(self, w, &bl, &gs, &ps, &st, Ghost(closed));
                return Some(r);
            }
            close_cell(self, w, &bl, &mut gs, &mut ps, &mut st, best, Ghost(closed));
            proof {
                closed = closed + 1;
            }
            expand(self, w, &bl, &mut gs, &mut ps, &mut st, best, Ghost(closed));
        }
    }
}

/// A start cell shut in by walls has no path out: where a region holds the
/// start but not the end, and every move out of it would step onto a wall,
/// the end cannot be reached.
pub proof fn lemma_enclosed_unreachable(g: Grid, region: Set<Cell>)
    requires
        region.contains(g.start),
        !region.contains(g.end),
        forall|a: Cell, b: Cell|
            #[trigger] region.contains(a) && adjacent(a, b) && !(#[trigger] region.contains(b)) ==> g.walls@.contains(b),
    ensures
        !reachable(g),
{
    assert forall|p: Seq<Cell>| !is_path(g, p) by {
        if is_path(g, p) {
            lemma_walk_stays(g, region, p);
        }
    }
}

/// A walk that starts in an enclosed region ends in it.
proof fn lemma_walk_stays(g: Grid, region: Set<Cell>, p: Seq<Cell>)
    requires
        region.contains(p[0]),
        is_walk(g, p),
        forall|a: Cell, b: Cell|
            #[trigger] region.contains(a) && adjacent(a, b) && !(#[trigger] region.contains(b)) ==> g.walls@.contains(b),
    ensures
        region.contains(p.last()),
    decreases p.len(),
{
    if p.len() > 1 {
        let q = p.drop_last();
        assert forall|i: int| 0 <= i < q.len() - 1 implies #[trigger] step(g, q[i], q[i + 1]) by {
            assert(step(g, p[i], p[i + 1]));
        }
        lemma_walk_stays(g, region, q);
        assert(step(g, p[p.len() - 2], p[p.len() - 2 + 1]));
    }
}

/// One move from `a` toward `b`: along the row first, then the column.
pub open spec fn toward(a: Cell, b: Cell) -> Cell {
    if a.0 < b.0 {
        ((a.0 + 1) as i64, a.1)
    } else if a.0 > b.0 {
        ((a.0 - 1) as i64, a.1)
    } else if a.1 < b.1 {
        (a.0, (a.1 + 1) as i64)
    } else {
        (a.0, (a.1 - 1) as i64)
    }
}

/// The walk from `a` to `b` that moves toward `b` at every step.
pub open spec fn staircase(a: Cell, b: Cell) -> Seq<Cell>
    decreases manhattan(a, b),
{
    if manhattan(a, b) <= 0 {
        seq![a]
    } else {
        seq![a] + staircase(toward(a, b), b)
    }
}

/// On a grid without walls, the staircase between two in-bounds cells is a
/// walk of `manhattan(a, b)` moves.
proof fn lemma_staircase(g: Grid, a: Cell, b: Cell)
    requires
        g.walls@.len() == 0,
        in_bounds(g, a),
        in_bounds(g, b),
    ensures
        is_walk(g, staircase(a, b)),
        staircase(a, b)[0] == a,
        staircase(a, b).last() == b,
        staircase(a, b).len() == manhattan(a, b) + 1,
    decreases manhattan(a, b),
{
    if manhattan(a, b) > 0 {
        let t = toward(a, b);
        lemma_staircase(g, t, b);
        let rest = staircase(t, b);
        let p = staircase(a, b);
        assert(p == seq![a] + rest);
        assert forall|i: int| 0 <= i < p.len() - 1 implies #[trigger] step(g, p[i], p[i + 1]) by {
            if i > 0 {
                assert(p[i] == rest[i - 1] && p[i + 1] == rest[i - 1 + 1]);
                assert(step(g, rest[i - 1], rest[i - 1 + 1]));
            } else {
                assert(!g.walls@.contains(t));
            }
        }
    }
}

/// With no walls, a shortest path is exactly as long as the Manhattan
/// distance between its ends: it makes `manhattan(start, end)` moves.
pub proof fn lemma_open_grid_shortest(g: Grid, p: Seq<Cell>)
    requires
        g.walls@.len() == 0,
        in_bounds(g, g.start),
        in_bounds(g, g.end),
        is_path(g, p),
        forall|q: Seq<Cell>| is_path(g, q) ==> p.len() <= q.len(),
    ensures
        p.len() - 1 == manhattan(g.start, g.end),
{
    lemma_staircase(g, g.start, g.end);
    assert(is_path(g, staircase(g.start, g.end)));
    lemma_walk_distance(g, p, 0, p.len() - 1);
}

} // verus!

use vstd::prelude::*;

verus! {

/// A unit cell of the grid, by its integer column and row.
pub type Cell = (i64, i64);

pub open spec fn abs_diff(a: int, b: int) -> int {
    if a >= b { a - b } else { b - a }
}

/// Four-directional (Manhattan) distance between two cells.
pub open spec fn manhattan(a: Cell, b: Cell) -> int {
    abs_diff(a.0 as int, b.0 as int) + abs_diff(a.1 as int, b.1 as int)
}

/// Two cells that share a side.
pub open spec fn adjacent(a: Cell, b: Cell) -> bool {
    manhattan(a, b) == 1
}

/// The search heuristic: the Manhattan distance between two cells. It never
/// overestimates the number of unit steps between them, and it changes by at
/// most one per step, so the search that uses it returns shortest paths.
pub fn d(a: Cell, b: Cell) -> (r: u128)
    ensures
        r as int == manhattan(a, b),
{
    let dx: i128 = a.0 as i128 - b.0 as i128;
    let dy: i128 = a.1 as i128 - b.1 as i128;
    let ax: u128 = if dx >= 0 { dx as u128 } else { (-dx) as u128 };
    let ay: u128 = if dy >= 0 { dy as u128 } else { (-dy) as u128 };
    ax + ay
}

/// The Manhattan distance obeys the triangle inequality.
pub proof fn lemma_manhattan_triangle(a: Cell, b: Cell, c: Cell)
    ensures
        manhattan(a, c) <= manhattan(a, b) + manhattan(b, c),
{
}

} // verus!

//! Grid cells, the Manhattan heuristic and 4-connected neighbourhoods.
use vstd::prelude::*;

verus! {

/// An integer (column, row) address. Cells outside a grid's bounds are
/// representable so that callers can hand in an "unset" or "outside" cell.
#[derive(Clone, Copy, Debug, PartialEq, Eq, Structural)]
pub struct Cell {
    pub col: i32,
    pub row: i32,
}

impl Cell {
    pub fn new(col: i32, row: i32) -> (r: Cell)
        ensures
            r.col == col,
            r.row == row,
    {
        Cell { col, row }
    }
}

/// The cell lies in `[0, w) x [0, h)`.
pub open spec fn in_bounds(c: Cell, w: int, h: int) -> bool {
    0 <= c.col < w && 0 <= c.row < h
}

pub open spec fn abs_diff(a: int, b: int) -> int {
    if a >= b { a - b } else { b - a }
}

/// Manhattan distance `|dx| + |dy|`.
pub open spec fn manhattan(a: Cell, b: Cell) -> int {
    abs_diff(a.col as int, b.col as int) + abs_diff(a.row as int, b.row as int)
}

/// Two cells are 4-connected neighbours.
pub open spec fn adjacent(a: Cell, b: Cell) -> bool {
    manhattan(a, b) == 1
}

/// A walk of unit steps between adjacent cells, all inside the grid.
pub open spec fn is_walk(p: Seq<Cell>, w: int, h: int) -> bool {
    &&& forall|k: int| 0 <= k < p.len() ==> #[trigger] in_bounds(p[k], w, h)
    &&& forall|k: int| 0 <= k < p.len() - 1 ==> adjacent(#[trigger] p[k], p[k + 1])
}

/// A walk from `a` to `b`; its cost is its number of edges, `p.len() - 1`.
pub open spec fn is_walk_between(p: Seq<Cell>, a: Cell, b: Cell, w: int, h: int) -> bool {
    &&& p.len() >= 1
    &&& p[0] == a
    &&& p[p.len() - 1] == b
    &&& is_walk(p, w, h)
}

/// The cell one unit step from `a` towards `b` (columns first); `a` itself when they coincide.
pub open spec fn step_toward(a: Cell, b: Cell) -> Cell {
    if a.col < b.col {
        Cell { col: (a.col + 1) as i32, row: a.row }
    } else if a.col > b.col {
        Cell { col: (a.col - 1) as i32, row: a.row }
    } else if a.row < b.row {
        Cell { col: a.col, row: (a.row + 1) as i32 }
    } else if a.row > b.row {
        Cell { col: a.col, row: (a.row - 1) as i32 }
    } else {
        a
    }
}

/// The walk from `a` to `b` that moves along columns first, then along rows.
pub open spec fn staircase(a: Cell, b: Cell) -> Seq<Cell>
    decreases manhattan(a, b),
{
    if a == b {
        seq![a]
    } else {
        seq![a] + staircase(step_toward(a, b), b)
    }
}

pub proof fn lemma_step_toward(a: Cell, b: Cell, w: int, h: int)
    requires
        a != b,
        in_bounds(a, w, h),
        in_bounds(b, w, h),
    ensures
        in_bounds(step_toward(a, b), w, h),
        adjacent(a, step_toward(a, b)),
        manhattan(step_toward(a, b), b) == manhattan(a, b) - 1,
{
}

proof fn lemma_staircase(a: Cell, b: Cell, w: int, h: int)
    requires
        in_bounds(a, w, h),
        in_bounds(b, w, h),
    ensures
        is_walk_between(staircase(a, b), a, b, w, h),
        staircase(a, b).len() == manhattan(a, b) + 1,
    decreases manhattan(a, b),
{
    if a != b {
        let n = step_toward(a, b);
        lemma_step_toward(a, b, w, h);
        lemma_staircase(n, b, w, h);
        let p = staircase(a, b);
        let q = staircase(n, b);
        assert(p =~= seq![a] + q);
        assert forall|k: int| 0 <= k < p.len() implies #[trigger] in_bounds(p[k], w, h) by {
            if k > 0 {
                assert(p[k] == q[k - 1]);
            }
        }
        assert forall|k: int| 0 <= k < p.len() - 1 implies adjacent(#[trigger] p[k], p[k + 1]) by {
            assert(p[k + 1] == q[k]);
            if k > 0 {
                assert(p[k] == q[k - 1]);
                assert(adjacent(q[k - 1], q[k]));
            }
        }
    }
}

/// Every walk from `a` to `b` takes at least `manhattan(a, b)` steps: the
/// Manhattan heuristic never overestimates the remaining cost.
pub proof fn lemma_walk_at_least_manhattan(p: Seq<Cell>, a: Cell, b: Cell, w: int, h: int)
    requires
        is_walk_between(p, a, b, w, h),
    ensures
        manhattan(a, b) <= p.len() - 1,
    decreases p.len(),
{
    if p.len() > 1 {
        let q = p.subrange(1, p.len() as int);
        assert(adjacent(p[0], p[1]));
        assert forall|k: int| 0 <= k < q.len() implies #[trigger] in_bounds(q[k], w, h) by {
            assert(in_bounds(p[k + 1], w, h));
        }
        assert forall|k: int| 0 <= k < q.len() - 1 implies adjacent(#[trigger] q[k], q[k + 1]) by {
            assert(adjacent(p[k + 1], p[k + 2]));
        }
        lemma_walk_at_least_manhattan(q, p[1], b, w, h);
    }
}

/// Admissibility, exactly: on a grid without obstacles the Manhattan distance
/// between two cells is never more than the cost of any walk between them, and
/// some walk between them costs exactly that much. So the heuristic equals the
/// true shortest-path cost.
pub proof fn heuristic_is_shortest_cost(a: Cell, b: Cell, w: int, h: int)
    requires
        in_bounds(a, w, h),
        in_bounds(b, w, h),
    ensures
        forall|p: Seq<Cell>| #[trigger] is_walk_between(p, a, b, w, h) ==> manhattan(a, b) <= p.len() - 1,
        exists|p: Seq<Cell>| #[trigger] is_walk_between(p, a, b, w, h) && p.len() - 1 == manhattan(a, b),
{
    assert forall|p: Seq<Cell>| #[trigger] is_walk_between(p, a, b, w, h) implies manhattan(a, b) <= p.len() - 1 by {
        lemma_walk_at_least_manhattan(p, a, b, w, h);
    }
    lemma_staircase(a, b, w, h);
    let s = staircase(a, b);
    assert(is_walk_between(s, a, b, w, h) && s.len() - 1 == manhattan(a, b));
}

/// The heuristic: Manhattan distance between two cells.
pub fn heuristic(a: Cell, b: Cell) -> (r: u64)
    ensures
        r as int == manhattan(a, b),
{
    let dx: i64 = if a.col >= b.col { a.col as i64 - b.col as i64 } else { b.col as i64 - a.col as i64 };
    let dy: i64 = if a.row >= b.row { a.row as i64 - b.row as i64 } else { b.row as i64 - a.row as i64 };
    (dx + dy) as u64
}

pub open spec fn if_inside(c: Cell, w: int, h: int) -> Seq<Cell> {
    if in_bounds(c, w, h) { seq![c] } else { Seq::empty() }
}

/// The neighbours of `c` inside a `w` by `h` grid, in the order up, left,
/// right, down. Only cells of the grid have neighbours.
pub open spec fn neighbors_in(c: Cell, w: int, h: int) -> Seq<Cell> {
    if in_bounds(c, w, h) {
        if_inside(Cell { col: c.col, row: (c.row - 1) as i32 }, w, h)
            + if_inside(Cell { col: (c.col - 1) as i32, row: c.row }, w, h)
            + if_inside(Cell { col: (c.col + 1) as i32, row: c.row }, w, h)
            + if_inside(Cell { col: c.col, row: (c.row + 1) as i32 }, w, h)
    } else {
        Seq::empty()
    }
}

/// The 4-connected neighbours of `c` that lie inside a `w` by `h` grid, in the
/// order up, left, right, down.
pub fn get_neighbors(c: Cell, w: i32, h: i32) -> (r: Vec<Cell>)
    requires
        in_bounds(c, w as int, h as int),
    ensures
        r@ == neighbors_in(c, w as int, h as int),
        r@.len() <= 4,
        forall|k: int| 0 <= k < r@.len() ==> in_bounds(#[trigger] r@[k], w as int, h as int) && adjacent(c, r@[k]),
        forall|n: Cell| in_bounds(n, w as int, h as int) && adjacent(c, n) ==> r@.contains(n),
{
    let mut r: Vec<Cell> = Vec::new();
    let x: i64 = c.col as i64;
    let y: i64 = c.row as i64;
    let inside_col = 0 <= x && x < w as i64;
    let inside_row = 0 <= y && y < h as i64;
    let ghost up = Cell { col: c.col, row: (y - 1) as i32 };
    let ghost left = Cell { col: (x - 1) as i32, row: c.row };
    let ghost right = Cell { col: (x + 1) as i32, row: c.row };
    let ghost down = Cell { col: c.col, row: (y + 1) as i32 };
    let ghost mut iu: int = -1;
    let ghost mut il: int = -1;
    let ghost mut ir: int = -1;
    let ghost mut id: int = -1;
    if inside_col && 0 <= y - 1 && y - 1 < h as i64 {
        r.push(Cell { col: c.col, row: (y - 1) as i32 });
        proof { iu = r@.len() - 1; }
    }
    if inside_row && 0 <= x - 1 && x - 1 < w as i64 {
        r.push(Cell { col: (x - 1) as i32, row: c.row });
        proof { il = r@.len() - 1; }
    }
    if inside_row && 0 <= x + 1 && x + 1 < w as i64 {
        r.push(Cell { col: (x + 1) as i32, row: c.row });
        proof { ir = r@.len() - 1; }
    }
    if inside_col && 0 <= y + 1 && y + 1 < h as i64 {
        r.push(Cell { col: c.col, row: (y + 1) as i32 });
        proof { id = r@.len() - 1; }
    }
    proof {
        assert(r@ =~= neighbors_in(c, w as int, h as int));
        assert forall|n: Cell| in_bounds(n, w as int, h as int) && adjacent(c, n) implies r@.contains(n) by {
            if n.row == c.row - 1 {
                assert(r@[iu] == n);
            } else if n.col == c.col - 1 {
                assert(r@[il] == n);
            } else if n.col == c.col + 1 {
                assert(r@[ir] == n);
            } else {
                assert(r@[id] == n);
            }
        }
    }
    r
}

} // verus!

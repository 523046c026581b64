//! Path reconstruction from backpointers, and marking a path on the grid.
use vstd::prelude::*;
use crate::cell::{Cell, in_bounds, adjacent, is_walk_between};
use crate::grid::{Grid, Tile, index_of, lemma_index_in_range};
use crate::search::{UNREACHED, cell_index, backpointers_sound, state_sound, cell_sound, back_ok};

verus! {

/// `c` is one of the path's cells other than its two ends.
pub open spec fn on_interior(p: Seq<Cell>, c: Cell) -> bool {
    exists|k: int| 0 < k < p.len() - 1 && p[k] == c
}

pub open spec fn on_interior_before(p: Seq<Cell>, c: Cell, end: int) -> bool {
    exists|k: int| 0 < k < end && p[k] == c
}

/// The classification a cell gets when a path is marked: `Start` and `Target`
/// stay, interior path cells become `OnPath`, everything else `Empty`.
pub open spec fn marked(before: Tile, interior: bool) -> Tile {
    if before == Tile::Start || before == Tile::Target {
        before
    } else if interior {
        Tile::OnPath
    } else {
        Tile::Empty
    }
}

/// The cells met following backpointers from `c` for at most `fuel` steps,
/// stopping at `s`: `c` first.
pub open spec fn walk_back(bp: Seq<Option<Cell>>, w: int, s: Cell, c: Cell, fuel: nat) -> Seq<Cell>
    decreases fuel,
{
    if c == s || fuel == 0 {
        seq![c]
    } else {
        match bp[index_of(c, w)] {
            Some(p) => seq![c] + walk_back(bp, w, s, p, (fuel - 1) as nat),
            None => seq![c],
        }
    }
}

/// Walks the backpointers from `target` back to `start` and returns the cells
/// in order from `start` to `target`.
pub(crate) fn trace_back(bp: &Vec<Option<Cell>>, w: i32, h: i32, start: Cell, target: Cell, Ghost(cost): Ghost<Seq<u64>>)
    -> (r: Vec<Cell>)
    requires
        backpointers_sound(w as int, h as int, start, cost, bp@),
        in_bounds(target, w as int, h as int),
        cost[index_of(target, w as int)] != UNREACHED,
    ensures
        is_walk_between(r@, start, target, w as int, h as int),
        r@.len() == cost[index_of(target, w as int)] + 1,
        r@ == walk_back(bp@, w as int, start, target, cost[index_of(target, w as int)] as nat).reverse(),
{
    let ghost wi = w as int;
    let ghost hi = h as int;
    let ghost closed = choose|closed: Seq<bool>| #[trigger] state_sound(wi, hi, start, cost, closed, bp@);
    let ghost ct = cost[index_of(target, wi)] as int;
    let mut rev: Vec<Cell> = Vec::new();
    rev.push(target);
    let mut cur = target;
    while cur != start
        invariant
            state_sound(wi, hi, start, cost, closed, bp@),
            wi == w,
            hi == h,
            ct == cost[index_of(target, wi)],
            in_bounds(cur, wi, hi),
            cost[index_of(cur, wi)] != UNREACHED,
            rev@.len() >= 1,
            rev@[0] == target,
            rev@[rev@.len() - 1] == cur,
            rev@.len() + cost[index_of(cur, wi)] == ct + 1,
            forall|k: int| 0 <= k < rev@.len() ==> #[trigger] in_bounds(rev@[k], wi, hi),
            forall|k: int| 0 <= k < rev@.len() - 1 ==> adjacent(#[trigger] rev@[k + 1], rev@[k]),
            walk_back(bp@, wi, start, target, ct as nat)
                == rev@.subrange(0, rev@.len() - 1) + walk_back(bp@, wi, start, cur, cost[index_of(cur, wi)] as nat),
        decreases cost[index_of(cur, wi)],
    {
        proof {
            assert(cell_sound(wi, hi, start, cost, closed, bp@, cur));
            lemma_index_in_range(cur, wi, hi);
        }
        let ci = cell_index(cur, w, h, bp.len());
        let prev = bp[ci];
        match prev {
            Some(p) => {
                let ghost rev_before = rev@;
                let ghost cur_before = cur;
                proof {
                    assert(back_ok(wi, cost, closed, bp@, cur, hi));
                }
                rev.push(p);
                cur = p;
                proof {
                    let f = cost[index_of(cur_before, wi)] as nat;
                    assert(walk_back(bp@, wi, start, cur_before, f)
                        == seq![cur_before] + walk_back(bp@, wi, start, p, (f - 1) as nat));
                    assert(rev@.subrange(0, rev@.len() - 1)
                        =~= rev_before.subrange(0, rev_before.len() - 1) + seq![cur_before]);
                }
            },
            None => {
                proof {
                    assert(back_ok(wi, cost, closed, bp@, cur, hi));
                }
            },
        }
    }
    proof {
        assert(cell_sound(wi, hi, start, cost, closed, bp@, start));
        assert(rev@ =~= walk_back(bp@, wi, start, target, ct as nat));
    }
    let mut path: Vec<Cell> = Vec::new();
    let mut i: usize = rev.len();
    while i > 0
        invariant
            i <= rev@.len(),
            path@.len() == rev@.len() - i,
            forall|k: int| 0 <= k < path@.len() ==> #[trigger] path@[k] == rev@[rev@.len() - 1 - k],
        decreases i,
    {
        i = i - 1;
        path.push(rev[i]);
    }
    proof {
        let p = path@;
        assert forall|k: int| 0 <= k < p.len() implies #[trigger] in_bounds(p[k], wi, hi) by {
            assert(in_bounds(rev@[rev@.len() - 1 - k], wi, hi));
        }
        assert forall|k: int| 0 <= k < p.len() - 1 implies adjacent(#[trigger] p[k], p[k + 1]) by {
            let j = rev@.len() - 2 - k;
            assert(adjacent(rev@[j + 1], rev@[j]));
            assert(p[k] == rev@[j + 1]);
            assert(p[k + 1] == rev@[j]);
        }
        assert(p =~= rev@.reverse());
        assert(p[0] == rev@[rev@.len() - 1]);
        assert(p[p.len() - 1] == rev@[0]);
    }
    path
}

/// Clears every `OnPath` marker, then marks the path's interior cells
/// `OnPath`; cells holding `Start` or `Target` keep their classification.
pub fn mark_path(grid: &mut Grid, path: &Vec<Cell>)
    requires
        old(grid).wf(),
        forall|k: int| 0 <= k < path@.len() ==> #[trigger] old(grid).contains(path@[k]),
    ensures
        final(grid).wf(),
        final(grid).spec_width() == old(grid).spec_width(),
        final(grid).spec_height() == old(grid).spec_height(),
        forall|c: Cell| #[trigger] old(grid).contains(c)
            ==> final(grid).tile(c) == marked(old(grid).tile(c), on_interior(path@, c)),
{
    grid.clear_classification(Tile::OnPath);
    let n = path.len();
    if n < 2 {
        proof {
            assert forall|c: Cell| #[trigger] old(grid).contains(c)
                implies grid.tile(c) == marked(old(grid).tile(c), on_interior(path@, c)) by {
            }
        }
        return;
    }
    let mut k: usize = 1;
    while k < n - 1
        invariant
            1 <= k <= n - 1,
            n == path@.len(),
            grid.wf(),
            grid.spec_width() == old(grid).spec_width(),
            grid.spec_height() == old(grid).spec_height(),
            forall|j: int| 0 <= j < path@.len() ==> #[trigger] old(grid).contains(path@[j]),
            forall|c: Cell| #[trigger] old(grid).contains(c)
                ==> grid.tile(c) == marked(old(grid).tile(c), on_interior_before(path@, c, k as int)),
        decreases n - 1 - k,
    {
        let c0 = path[k];
        let current = grid.get_tile(c0);
        let keep = match current {
            Ok(t) => t == Tile::Start || t == Tile::Target,
            Err(_) => true,
        };
        let ghost before = *grid;
        if !keep {
            let _ = grid.set_tile(c0, Tile::OnPath);
        }
        proof {
            assert forall|c: Cell| #[trigger] old(grid).contains(c)
                implies grid.tile(c) == marked(old(grid).tile(c), on_interior_before(path@, c, k as int + 1)) by {
                assert(before.tile(c) == marked(old(grid).tile(c), on_interior_before(path@, c, k as int)));
                if c == c0 {
                    assert(on_interior_before(path@, c, k as int + 1)) by {
                        assert(path@[k as int] == c);
                    }
                } else {
                    if on_interior_before(path@, c, k as int + 1) {
                        let j = choose|j: int| 0 < j < k + 1 && path@[j] == c;
                        assert(j < k);
                    }
                }
            }
        }
        k = k + 1;
    }
}

} // verus!

//! A* search over the grid: cost map, backpointers, closed set, and path marking.
use vstd::prelude::*;
use vstd::set_lib::{set_int_range, lemma_int_range, lemma_len_subset};
use crate::cell::{
    Cell, in_bounds, manhattan, adjacent, step_toward, lemma_step_toward, heuristic, get_neighbors, neighbors_in,
    is_walk_between, lemma_walk_at_least_manhattan,
};
use crate::grid::{Grid, Tile, index_of, lemma_index_in_range, lemma_index_unique};
use crate::path::{trace_back, mark_path, marked, on_interior, walk_back};
use crate::frontier::{Frontier, SearchNode, removes_least, first_min};

verus! {

/// Cost of a cell that no path has reached yet.
pub const UNREACHED: u64 = 0xffff_ffff_ffff_ffff;

/// The recorded predecessor of `c` is a closed neighbour one unit cheaper.
pub open spec fn back_ok(w: int, cost: Seq<u64>, closed: Seq<bool>, bp: Seq<Option<Cell>>, c: Cell, h: int) -> bool {
    match bp[index_of(c, w)] {
        Some(p) => {
            &&& in_bounds(p, w, h)
            &&& adjacent(p, c)
            &&& closed[index_of(p, w)]
            &&& cost[index_of(c, w)] == cost[index_of(p, w)] + 1
        },
        None => false,
    }
}

/// What the search knows of one cell: closed cells carry their exact distance
/// from `s`, reached cells a cost no less than it, and every reached cell but
/// `s` a backpointer to a closed neighbour.
pub open spec fn cell_sound(w: int, h: int, s: Cell, cost: Seq<u64>, closed: Seq<bool>, bp: Seq<Option<Cell>>, c: Cell) -> bool {
    let i = index_of(c, w);
    &&& closed[i] ==> cost[i] as int == manhattan(s, c)
    &&& cost[i] != UNREACHED ==> manhattan(s, c) <= cost[i] <= manhattan(s, c) + 2
    &&& (cost[i] != UNREACHED && c != s) ==> back_ok(w, cost, closed, bp, c, h)
}

pub open spec fn state_sound(w: int, h: int, s: Cell, cost: Seq<u64>, closed: Seq<bool>, bp: Seq<Option<Cell>>) -> bool {
    &&& 0 <= w <= i32::MAX
    &&& 0 <= h <= i32::MAX
    &&& cost.len() == w * h
    &&& closed.len() == w * h
    &&& bp.len() == w * h
    &&& in_bounds(s, w, h)
    &&& cost[index_of(s, w)] == 0
    &&& forall|c: Cell| in_bounds(c, w, h) ==> #[trigger] cell_sound(w, h, s, cost, closed, bp, c)
}

/// Every open neighbour of `p` costs at most one more than `p`.
pub open spec fn relaxed(w: int, h: int, cost: Seq<u64>, closed: Seq<bool>, p: Cell) -> bool {
    forall|n: Cell| in_bounds(n, w, h) && #[trigger] adjacent(p, n) && !closed[index_of(n, w)]
        ==> cost[index_of(n, w)] <= cost[index_of(p, w)] + 1
}

pub open spec fn entry_ok(w: int, h: int, t: Cell, cost: Seq<u64>, e: SearchNode) -> bool {
    &&& in_bounds(e.cell, w, h)
    &&& cost[index_of(e.cell, w)] != UNREACHED
    &&& e.priority >= cost[index_of(e.cell, w)] + manhattan(e.cell, t)
}

pub open spec fn entries_sound(w: int, h: int, t: Cell, cost: Seq<u64>, fr: Seq<SearchNode>) -> bool {
    forall|k: int| 0 <= k < fr.len() ==> #[trigger] entry_ok(w, h, t, cost, fr[k])
}

/// The entry that an open, reached cell must have in the frontier.
pub open spec fn fresh_node(w: int, t: Cell, cost: Seq<u64>, c: Cell) -> SearchNode {
    SearchNode { cell: c, priority: (cost[index_of(c, w)] + manhattan(c, t)) as u64 }
}

pub open spec fn listed(w: int, h: int, t: Cell, cost: Seq<u64>, closed: Seq<bool>, fr: Seq<SearchNode>, c: Cell) -> bool {
    (in_bounds(c, w, h) && !closed[index_of(c, w)] && cost[index_of(c, w)] != UNREACHED)
        ==> fr.contains(fresh_node(w, t, cost, c))
}

pub open spec fn all_listed(w: int, h: int, t: Cell, cost: Seq<u64>, closed: Seq<bool>, fr: Seq<SearchNode>) -> bool {
    forall|c: Cell| #[trigger] listed(w, h, t, cost, closed, fr, c)
}

pub open spec fn all_relaxed(w: int, h: int, cost: Seq<u64>, closed: Seq<bool>) -> bool {
    forall|p: Cell| in_bounds(p, w, h) && closed[index_of(p, w)] ==> #[trigger] relaxed(w, h, cost, closed, p)
}

/// While `u` is open, the frontier holds an entry whose priority is at most
/// the true distance through `u` (consistency of the heuristic).
proof fn lemma_cheap_entry(w: int, h: int, s: Cell, t: Cell, cost: Seq<u64>, closed: Seq<bool>, bp: Seq<Option<Cell>>,
    fr: Seq<SearchNode>, u: Cell)
    requires
        state_sound(w, h, s, cost, closed, bp),
        all_relaxed(w, h, cost, closed),
        all_listed(w, h, t, cost, closed, fr),
        in_bounds(u, w, h),
        !closed[index_of(u, w)],
    ensures
        exists|e: SearchNode| fr.contains(e) && e.priority <= manhattan(s, u) + manhattan(u, t),
    decreases manhattan(s, u),
{
    assert(listed(w, h, t, cost, closed, fr, u));
    if u == s {
        assert(fr.contains(fresh_node(w, t, cost, u)));
    } else {
        let v = step_toward(u, s);
        lemma_step_toward(u, s, w, h);
        assert(cell_sound(w, h, s, cost, closed, bp, v));
        assert(cell_sound(w, h, s, cost, closed, bp, u));
        if closed[index_of(v, w)] {
            assert(relaxed(w, h, cost, closed, v));
            assert(adjacent(v, u));
            assert(fr.contains(fresh_node(w, t, cost, u)));
        } else {
            lemma_cheap_entry(w, h, s, t, cost, closed, bp, fr, v);
        }
    }
}

/// Taking the least entry off the frontier and closing its cell, when that cell
/// was open, keeps the search's invariants; the closed cell's cost is exact.
proof fn lemma_close(w: int, h: int, s: Cell, t: Cell, cost: Seq<u64>, closed: Seq<bool>, bp: Seq<Option<Cell>>,
    fr: Seq<SearchNode>, fr2: Seq<SearchNode>, node: SearchNode, k: int)
    requires
        state_sound(w, h, s, cost, closed, bp),
        all_relaxed(w, h, cost, closed),
        entries_sound(w, h, t, cost, fr),
        all_listed(w, h, t, cost, closed, fr),
        removes_least(fr, fr2, node, k),
        !closed[index_of(node.cell, w)],
    ensures
        in_bounds(node.cell, w, h),
        cost[index_of(node.cell, w)] as int == manhattan(s, node.cell),
        state_sound(w, h, s, cost, closed.update(index_of(node.cell, w), true), bp),
        entries_sound(w, h, t, cost, fr2),
        all_listed(w, h, t, cost, closed.update(index_of(node.cell, w), true), fr2),
        forall|p: Cell| in_bounds(p, w, h) && closed[index_of(p, w)]
            ==> #[trigger] relaxed(w, h, cost, closed.update(index_of(node.cell, w), true), p),
{
    let u = node.cell;
    assert(entry_ok(w, h, t, cost, fr[k]));
    let iu = index_of(u, w);
    lemma_index_in_range(u, w, h);
    let closed2 = closed.update(iu, true);
    // The popped entry is no dearer than the cheap entry that `u` guarantees.
    lemma_cheap_entry(w, h, s, t, cost, closed, bp, fr, u);
    let e = choose|e: SearchNode| fr.contains(e) && e.priority <= manhattan(s, u) + manhattan(u, t);
    let j = choose|j: int| 0 <= j < fr.len() && fr[j] == e;
    assert(node.priority <= fr[j].priority);
    assert(cell_sound(w, h, s, cost, closed, bp, u));
    assert forall|k2: int| 0 <= k2 < fr2.len() implies #[trigger] entry_ok(w, h, t, cost, fr2[k2]) by {
        if k2 < k {
            assert(fr2[k2] == fr[k2]);
            assert(entry_ok(w, h, t, cost, fr[k2]));
        } else {
            assert(fr2[k2] == fr[k2 + 1]);
            assert(entry_ok(w, h, t, cost, fr[k2 + 1]));
        }
    }
    assert forall|c: Cell| in_bounds(c, w, h) implies #[trigger] cell_sound(w, h, s, cost, closed2, bp, c) by {
        assert(cell_sound(w, h, s, cost, closed, bp, c));
        lemma_index_in_range(c, w, h);
        if index_of(c, w) == iu {
            lemma_index_unique(c, u, w, h);
        }
        if cost[index_of(c, w)] != UNREACHED && c != s {
            let p = bp[index_of(c, w)].unwrap();
            lemma_index_in_range(p, w, h);
        }
    }
    assert forall|c: Cell| #[trigger] listed(w, h, t, cost, closed2, fr2, c) by {
        assert(listed(w, h, t, cost, closed, fr, c));
        if in_bounds(c, w, h) && !closed2[index_of(c, w)] && cost[index_of(c, w)] != UNREACHED {
            lemma_index_in_range(c, w, h);
            let x = fresh_node(w, t, cost, c);
            let m = choose|m: int| 0 <= m < fr.len() && fr[m] == x;
            assert(c != u);
            if m < k {
                assert(fr2[m] == x);
            } else {
                assert(m != k);
                assert(fr2[m - 1] == x);
            }
        }
    }
    assert forall|p: Cell| in_bounds(p, w, h) && closed[index_of(p, w)]
        implies #[trigger] relaxed(w, h, cost, closed2, p) by {
        assert(relaxed(w, h, cost, closed, p));
        assert forall|n: Cell| in_bounds(n, w, h) && #[trigger] adjacent(p, n) && !closed2[index_of(n, w)]
            implies cost[index_of(n, w)] <= cost[index_of(p, w)] + 1 by {
            lemma_index_in_range(n, w, h);
        }
    }
}

/// Lowering the cost of an open neighbour `nb` of the closed cell `u`, pointing
/// it back at `u` and listing it keeps the search's invariants.
proof fn lemma_relax(w: int, h: int, s: Cell, t: Cell, cost: Seq<u64>, closed: Seq<bool>, bp: Seq<Option<Cell>>,
    fr: Seq<SearchNode>, u: Cell, nb: Cell, tent: u64)
    requires
        state_sound(w, h, s, cost, closed, bp),
        entries_sound(w, h, t, cost, fr),
        all_listed(w, h, t, cost, closed, fr),
        in_bounds(u, w, h),
        closed[index_of(u, w)],
        in_bounds(nb, w, h),
        adjacent(u, nb),
        !closed[index_of(nb, w)],
        tent == cost[index_of(u, w)] + 1,
        tent < cost[index_of(nb, w)],
    ensures
        state_sound(w, h, s, cost.update(index_of(nb, w), tent), closed, bp.update(index_of(nb, w), Some(u))),
        entries_sound(w, h, t, cost.update(index_of(nb, w), tent),
            fr.push(fresh_node(w, t, cost.update(index_of(nb, w), tent), nb))),
        all_listed(w, h, t, cost.update(index_of(nb, w), tent), closed,
            fr.push(fresh_node(w, t, cost.update(index_of(nb, w), tent), nb))),
        fresh_node(w, t, cost.update(index_of(nb, w), tent), nb) == (SearchNode {
            cell: nb, priority: (tent + manhattan(nb, t)) as u64 }),
        tent + manhattan(nb, t) <= u64::MAX,
        forall|m: Cell| in_bounds(m, w, h) && m != nb
            ==> #[trigger] cost.update(index_of(nb, w), tent)[index_of(m, w)] == cost[index_of(m, w)],
        forall|p: Cell| in_bounds(p, w, h) && closed[index_of(p, w)] && relaxed(w, h, cost, closed, p)
            ==> #[trigger] relaxed(w, h, cost.update(index_of(nb, w), tent), closed, p),
{
    let inb = index_of(nb, w);
    lemma_index_in_range(nb, w, h);
    lemma_index_in_range(u, w, h);
    let cost2 = cost.update(inb, tent);
    let bp2 = bp.update(inb, Some(u));
    let x = fresh_node(w, t, cost2, nb);
    let fr2 = fr.push(x);
    assert(cell_sound(w, h, s, cost, closed, bp, u));
    assert(cell_sound(w, h, s, cost, closed, bp, nb));
    assert(cell_sound(w, h, s, cost, closed, bp, s));
    assert(nb != u);
    assert(nb != s);
    assert forall|m: Cell| in_bounds(m, w, h) && m != nb implies #[trigger] cost2[index_of(m, w)] == cost[index_of(m, w)] by {
        lemma_index_in_range(m, w, h);
        if index_of(m, w) == inb {
            lemma_index_unique(m, nb, w, h);
        }
    }
    assert(cost2[index_of(u, w)] == cost[index_of(u, w)]);
    assert(cost2[index_of(s, w)] == 0);
    assert forall|c: Cell| in_bounds(c, w, h) implies #[trigger] cell_sound(w, h, s, cost2, closed, bp2, c) by {
        assert(cell_sound(w, h, s, cost, closed, bp, c));
        lemma_index_in_range(c, w, h);
        if c == nb {
            assert(cost2[inb] == tent);
            assert(bp2[inb] == Some(u));
        } else {
            assert(cost2[index_of(c, w)] == cost[index_of(c, w)]);
            if index_of(c, w) == inb {
                lemma_index_unique(c, nb, w, h);
            }
            assert(bp2[index_of(c, w)] == bp[index_of(c, w)]);
            if cost[index_of(c, w)] != UNREACHED && c != s {
                let p = bp[index_of(c, w)].unwrap();
                assert(back_ok(w, cost, closed, bp, c, h));
                assert(p != nb);
                assert(cost2[index_of(p, w)] == cost[index_of(p, w)]);
            }
        }
    }
    assert forall|k: int| 0 <= k < fr2.len() implies #[trigger] entry_ok(w, h, t, cost2, fr2[k]) by {
        if k < fr.len() {
            assert(fr2[k] == fr[k]);
            assert(entry_ok(w, h, t, cost, fr[k]));
            let c = fr[k].cell;
            if c != nb {
                assert(cost2[index_of(c, w)] == cost[index_of(c, w)]);
            }
        } else {
            assert(fr2[k] == x);
        }
    }
    assert forall|c: Cell| #[trigger] listed(w, h, t, cost2, closed, fr2, c) by {
        assert(listed(w, h, t, cost, closed, fr, c));
        if c == nb {
            assert(fr2[fr.len() as int] == x);
        } else if in_bounds(c, w, h) && !closed[index_of(c, w)] && cost2[index_of(c, w)] != UNREACHED {
            assert(cost2[index_of(c, w)] == cost[index_of(c, w)]);
            let y = fresh_node(w, t, cost, c);
            assert(fresh_node(w, t, cost2, c) == y);
            let m = choose|m: int| 0 <= m < fr.len() && fr[m] == y;
            assert(fr2[m] == y);
        }
    }
    assert forall|p: Cell| in_bounds(p, w, h) && closed[index_of(p, w)] && relaxed(w, h, cost, closed, p)
        implies #[trigger] relaxed(w, h, cost2, closed, p) by {
        assert(p != nb);
        assert(cost2[index_of(p, w)] == cost[index_of(p, w)]);
        assert forall|n: Cell| in_bounds(n, w, h) && #[trigger] adjacent(p, n) && !closed[index_of(n, w)]
            implies cost2[index_of(n, w)] <= cost2[index_of(p, w)] + 1 by {
            if n != nb {
                assert(cost2[index_of(n, w)] == cost[index_of(n, w)]);
            }
        }
    }
}

pub(crate) fn cell_index(c: Cell, w: i32, h: i32, n: usize) -> (r: usize)
    requires
        in_bounds(c, w as int, h as int),
        0 <= w,
        n == w as int * h as int,
    ensures
        r as int == index_of(c, w as int),
        r < n,
{
    proof {
        lemma_index_in_range(c, w as int, h as int);
        assert(0 <= c.row as int * w as int) by (nonlinear_arith)
            requires 0 <= c.row, 0 <= w;
    }
    (c.row as usize) * (w as usize) + (c.col as usize)
}

/// A snapshot of the search: cost map, backpointers, closed set, frontier,
/// and whether the target has been closed.
pub struct SearchState {
    pub cost: Seq<u64>,
    pub bp: Seq<Option<Cell>>,
    pub closed: Seq<bool>,
    pub fr: Seq<SearchNode>,
    pub done: bool,
}

pub open spec fn initial_state(w: int, h: int, s: Cell, t: Cell) -> SearchState {
    SearchState {
        cost: Seq::new((w * h) as nat, |i: int| UNREACHED).update(index_of(s, w), 0),
        bp: Seq::new((w * h) as nat, |i: int| None),
        closed: Seq::new((w * h) as nat, |i: int| false),
        fr: seq![SearchNode { cell: s, priority: manhattan(s, t) as u64 }],
        done: false,
    }
}

/// Relaxing the edge from the closed cell `u` to its neighbour `nb`.
pub open spec fn relax_one(st: SearchState, w: int, t: Cell, u: Cell, nb: Cell) -> SearchState {
    let ni = index_of(nb, w);
    let tent = st.cost[index_of(u, w)] + 1;
    if !st.closed[ni] && tent < st.cost[ni] {
        SearchState {
            cost: st.cost.update(ni, tent as u64),
            bp: st.bp.update(ni, Some(u)),
            fr: st.fr.push(SearchNode { cell: nb, priority: (tent + manhattan(nb, t)) as u64 }),
            ..st
        }
    } else {
        st
    }
}

/// Relaxing the edges from `u` to the first `j` cells of `nbrs`, in order.
pub open spec fn relax_prefix(st: SearchState, w: int, t: Cell, u: Cell, nbrs: Seq<Cell>, j: int) -> SearchState
    decreases j,
{
    if j <= 0 {
        st
    } else {
        relax_one(relax_prefix(st, w, t, u, nbrs, j - 1), w, t, u, nbrs[j - 1])
    }
}

/// One round of the search: take the first least entry off the frontier; skip
/// it if its cell is closed, else close the cell and stop at the target or
/// relax its neighbours.
pub open spec fn step(st: SearchState, w: int, h: int, t: Cell) -> SearchState {
    if st.done || st.fr.len() == 0 {
        st
    } else {
        let k = first_min(st.fr);
        let u = st.fr[k].cell;
        let ui = index_of(u, w);
        let fr2 = st.fr.remove(k);
        if st.closed[ui] {
            SearchState { fr: fr2, ..st }
        } else {
            let st2 = SearchState { closed: st.closed.update(ui, true), fr: fr2, ..st };
            if u == t {
                SearchState { done: true, ..st2 }
            } else {
                let nbrs = neighbors_in(u, w, h);
                relax_prefix(st2, w, t, u, nbrs, nbrs.len() as int)
            }
        }
    }
}

pub open spec fn run(st: SearchState, w: int, h: int, t: Cell, k: nat) -> SearchState
    decreases k,
{
    if k == 0 {
        st
    } else {
        step(run(st, w, h, t, (k - 1) as nat), w, h, t)
    }
}

/// The state in which the search from `s` to `t` stops.
pub open spec fn final_state(w: int, h: int, s: Cell, t: Cell) -> SearchState {
    run(initial_state(w, h, s, t), w, h, t, choose|k: nat| #[trigger] run(initial_state(w, h, s, t), w, h, t, k).done)
}

proof fn lemma_run_stays_done(st: SearchState, w: int, h: int, t: Cell, k: nat, m: nat)
    requires
        run(st, w, h, t, k).done,
        k <= m,
    ensures
        run(st, w, h, t, m) == run(st, w, h, t, k),
    decreases m - k,
{
    if k < m {
        lemma_run_stays_done(st, w, h, t, k, (m - 1) as nat);
    }
}

proof fn lemma_final_state(w: int, h: int, s: Cell, t: Cell, k: nat)
    requires
        run(initial_state(w, h, s, t), w, h, t, k).done,
    ensures
        final_state(w, h, s, t) == run(initial_state(w, h, s, t), w, h, t, k),
{
    let st = initial_state(w, h, s, t);
    let k2 = choose|k: nat| #[trigger] run(st, w, h, t, k).done;
    assert(run(st, w, h, t, k2).done);
    if k <= k2 {
        lemma_run_stays_done(st, w, h, t, k, k2);
    } else {
        lemma_run_stays_done(st, w, h, t, k2, k);
    }
}

/// Backpointers that lead from every reached cell to `s`, each step one unit
/// of cost cheaper: what path reconstruction relies on.
pub open spec fn backpointers_sound(w: int, h: int, s: Cell, cost: Seq<u64>, bp: Seq<Option<Cell>>) -> bool {
    exists|closed: Seq<bool>| #[trigger] state_sound(w, h, s, cost, closed, bp)
}

/// Runs A* from `start` towards `target` on an obstacle-free `w` by `h` grid,
/// with a closed set. Returns the backpointer map, with the cost map as a ghost
/// value; on such a grid the target is always reached, at its exact distance.
fn search(w: i32, h: i32, start: Cell, target: Cell) -> (r: (Option<Vec<Option<Cell>>>, Ghost<Seq<u64>>))
    requires
        0 <= w,
        0 <= h,
        w as int * h as int <= usize::MAX,
        in_bounds(start, w as int, h as int),
        in_bounds(target, w as int, h as int),
    ensures
        r.0 matches Some(bp) && backpointers_sound(w as int, h as int, start, r.1@, bp@)
            && r.1@[index_of(target, w as int)] as int == manhattan(start, target)
            && bp@ == final_state(w as int, h as int, start, target).bp,
{
    let ghost wi = w as int;
    let ghost hi = h as int;
    let n: usize = (w as usize) * (h as usize);
    let mut cost: Vec<u64> = Vec::new();
    let mut bp: Vec<Option<Cell>> = Vec::new();
    let mut closed: Vec<bool> = Vec::new();
    let mut i: usize = 0;
    while i < n
        invariant
            i <= n,
            cost@.len() == i,
            bp@.len() == i,
            closed@.len() == i,
            forall|j: int| 0 <= j < i ==> cost@[j] == UNREACHED && bp@[j] == None::<Cell> && !closed@[j],
        decreases n - i,
    {
        cost.push(UNREACHED);
        bp.push(None);
        closed.push(false);
        i = i + 1;
    }
    let si = cell_index(start, w, h, n);
    let ti = cell_index(target, w, h, n);
    cost.set(si, 0);
    let mut frontier = Frontier::new();
    frontier.push(SearchNode { cell: start, priority: heuristic(start, target) });
    let ghost mut closed_set: Set<int> = Set::empty();
    let ghost mut steps: nat = 0;
    proof {
        assert forall|c: Cell| in_bounds(c, wi, hi) implies #[trigger] cell_sound(wi, hi, start, cost@, closed@, bp@, c) by {
            lemma_index_in_range(c, wi, hi);
            if index_of(c, wi) == si as int {
                lemma_index_unique(c, start, wi, hi);
            }
        }
        assert forall|c: Cell| #[trigger] listed(wi, hi, target, cost@, closed@, frontier@, c) by {
            if in_bounds(c, wi, hi) && cost@[index_of(c, wi)] != UNREACHED {
                lemma_index_in_range(c, wi, hi);
                if index_of(c, wi) == si as int {
                    lemma_index_unique(c, start, wi, hi);
                }
                assert(frontier@[0] == fresh_node(wi, target, cost@, c));
            }
        }
        assert(entry_ok(wi, hi, target, cost@, frontier@[0]));
        assert forall|p: Cell| in_bounds(p, wi, hi) && closed@[index_of(p, wi)]
            implies #[trigger] relaxed(wi, hi, cost@, closed@, p) by {
            lemma_index_in_range(p, wi, hi);
        }
        lemma_int_range(0, n as int);
        let init = initial_state(wi, hi, start, target);
        assert(cost@ =~= init.cost);
        assert(bp@ =~= init.bp);
        assert(closed@ =~= init.closed);
        assert(frontier@ =~= init.fr);
    }
    loop
        invariant
            n == wi * hi,
            wi == w,
            hi == h,
            ti as int == index_of(target, wi),
            in_bounds(target, wi, hi),
            ti < n,
            cost@.len() == n,
            closed@.len() == n,
            bp@.len() == n,
            state_sound(wi, hi, start, cost@, closed@, bp@),
            all_relaxed(wi, hi, cost@, closed@),
            entries_sound(wi, hi, target, cost@, frontier@),
            all_listed(wi, hi, target, cost@, closed@, frontier@),
            !closed@[ti as int],
            closed_set.subset_of(set_int_range(0, n as int)),
            set_int_range(0, n as int).finite(),
            set_int_range(0, n as int).len() == n,
            forall|j: int| 0 <= j < n ==> (closed_set.contains(j) <==> closed@[j]),
            run(initial_state(wi, hi, start, target), wi, hi, target, steps)
                == (SearchState { cost: cost@, bp: bp@, closed: closed@, fr: frontier@, done: false }),
        decreases 5 * (n - closed_set.len()) + frontier@.len(),
    {
        proof {
            lemma_len_subset(closed_set, set_int_range(0, n as int));
        }
        let ghost fr_before = frontier@;
        let popped = frontier.pop_min();
        let node = match popped {
            Some(node) => node,
            None => {
                proof {
                    lemma_cheap_entry(wi, hi, start, target, cost@, closed@, bp@, fr_before, target);
                }
                return (None, Ghost(cost@));
            },
        };
        let ghost k = choose|k: int| #[trigger] removes_least(fr_before, frontier@, node, k);
        assert(entry_ok(wi, hi, target, cost@, fr_before[k]));
        let u = node.cell;
        let ui = cell_index(u, w, h, n);
        if closed[ui] {
            proof {
                assert forall|k2: int| 0 <= k2 < frontier@.len() implies #[trigger] entry_ok(wi, hi, target, cost@, frontier@[k2]) by {
                    if k2 < k {
                        assert(entry_ok(wi, hi, target, cost@, fr_before[k2]));
                    } else {
                        assert(entry_ok(wi, hi, target, cost@, fr_before[k2 + 1]));
                    }
                }
                assert forall|c: Cell| #[trigger] listed(wi, hi, target, cost@, closed@, frontier@, c) by {
                    assert(listed(wi, hi, target, cost@, closed@, fr_before, c));
                    if in_bounds(c, wi, hi) && !closed@[index_of(c, wi)] && cost@[index_of(c, wi)] != UNREACHED {
                        let x = fresh_node(wi, target, cost@, c);
                        let m = choose|m: int| 0 <= m < fr_before.len() && fr_before[m] == x;
                        assert(c != u);
                        if m < k {
                            assert(frontier@[m] == x);
                        } else {
                            assert(m != k);
                            assert(frontier@[m - 1] == x);
                        }
                    }
                }
            }
            proof {
                steps = steps + 1;
            }
            continue;
        }
        proof {
            lemma_close(wi, hi, start, target, cost@, closed@, bp@, fr_before, frontier@, node, k);
        }
        let ghost closed_before = closed@;
        let ghost st2 = SearchState { cost: cost@, bp: bp@, closed: closed_before.update(ui as int, true), fr: frontier@, done: false };
        closed.set(ui, true);
        let ghost measure_before = 5 * (n - closed_set.len()) + fr_before.len();
        proof {
            assert(!closed_set.contains(ui as int));
            closed_set = closed_set.insert(ui as int);
            lemma_len_subset(closed_set, set_int_range(0, n as int));
            assert(5 * (n - closed_set.len()) + frontier@.len() + 2 <= measure_before);
        }
        if ui == ti {
            proof {
                assert(state_sound(wi, hi, start, cost@, closed@, bp@));
                assert(cell_sound(wi, hi, start, cost@, closed@, bp@, target));
                lemma_index_in_range(u, wi, hi);
                lemma_index_unique(u, target, wi, hi);
                lemma_final_state(wi, hi, start, target, steps + 1);
            }
            return (Some(bp), Ghost(cost@));
        }
        proof {
            assert(closed@[ti as int] == closed_before[ti as int]);
            assert(u != target);
            assert forall|p: Cell| in_bounds(p, wi, hi) && closed@[index_of(p, wi)] && p != u
                implies #[trigger] relaxed(wi, hi, cost@, closed@, p) by {
                lemma_index_in_range(p, wi, hi);
                if index_of(p, wi) == ui as int {
                    lemma_index_unique(p, u, wi, hi);
                }
                assert(closed_before[index_of(p, wi)]);
            }
        }
        let nbrs = get_neighbors(u, w, h);
        let ghost fr_mid = frontier@.len();
        let mut j: usize = 0;
        while j < nbrs.len()
            invariant
                n == wi * hi,
                wi == w,
                hi == h,
                ti as int == index_of(target, wi),
            in_bounds(target, wi, hi),
            ti < n,
            cost@.len() == n,
            closed@.len() == n,
            bp@.len() == n,
                ui as int == index_of(u, wi),
                ui < n,
                cost@.len() == n,
                closed@.len() == n,
                bp@.len() == n,
                in_bounds(u, wi, hi),
                closed@[ui as int],
                cost@[ui as int] as int == manhattan(start, u),
                nbrs@.len() <= 4,
                forall|q: int| 0 <= q < nbrs@.len() ==> in_bounds(#[trigger] nbrs@[q], wi, hi) && adjacent(u, nbrs@[q]),
                j <= nbrs@.len(),
                state_sound(wi, hi, start, cost@, closed@, bp@),
                forall|p: Cell| in_bounds(p, wi, hi) && closed@[index_of(p, wi)] && p != u
                    ==> #[trigger] relaxed(wi, hi, cost@, closed@, p),
                forall|q: int| 0 <= q < j ==> closed@[index_of(#[trigger] nbrs@[q], wi)]
                    || cost@[index_of(nbrs@[q], wi)] <= cost@[ui as int] + 1,
                entries_sound(wi, hi, target, cost@, frontier@),
                all_listed(wi, hi, target, cost@, closed@, frontier@),
                !closed@[ti as int],
                closed_set.subset_of(set_int_range(0, n as int)),
                set_int_range(0, n as int).finite(),
                set_int_range(0, n as int).len() == n,
                forall|q: int| 0 <= q < n ==> (closed_set.contains(q) <==> closed@[q]),
                frontier@.len() <= fr_mid + j,
                nbrs@ == neighbors_in(u, wi, hi),
                (SearchState { cost: cost@, bp: bp@, closed: closed@, fr: frontier@, done: false })
                    == relax_prefix(st2, wi, target, u, nbrs@, j as int),
                step(run(initial_state(wi, hi, start, target), wi, hi, target, steps), wi, hi, target)
                    == relax_prefix(st2, wi, target, u, nbrs@, nbrs@.len() as int),
            decreases nbrs@.len() - j,
        {
            let nb = nbrs[j];
            let ni = cell_index(nb, w, h, n);
            if !closed[ni] {
                let tent = cost[ui] + 1;
                if tent < cost[ni] {
                    proof {
                        lemma_relax(wi, hi, start, target, cost@, closed@, bp@, frontier@, u, nb, tent);
                        assert(nb != u);
                    }
                    cost.set(ni, tent);
                    bp.set(ni, Some(u));
                    frontier.push(SearchNode { cell: nb, priority: tent + heuristic(nb, target) });
                    proof {
                        assert forall|q: int| 0 <= q <= j implies closed@[index_of(#[trigger] nbrs@[q], wi)]
                            || cost@[index_of(nbrs@[q], wi)] <= cost@[ui as int] + 1 by {
                            if nbrs@[q] != nb {
                                lemma_index_in_range(nbrs@[q], wi, hi);
                            }
                        }
                    }
                }
            }
            j = j + 1;
        }
        proof {
            assert(relaxed(wi, hi, cost@, closed@, u)) by {
                assert forall|m: Cell| in_bounds(m, wi, hi) && #[trigger] adjacent(u, m) && !closed@[index_of(m, wi)]
                    implies cost@[index_of(m, wi)] <= cost@[index_of(u, wi)] + 1 by {
                    assert(nbrs@.contains(m));
                    let q = choose|q: int| 0 <= q < nbrs@.len() && nbrs@[q] == m;
                }
            }
            steps = steps + 1;
        }
    }
}

/// The path that the search from `s` to `t` settles on, from `s` to `t`.
pub open spec fn planned_path(w: int, h: int, s: Cell, t: Cell) -> Seq<Cell> {
    walk_back(final_state(w, h, s, t).bp, w, s, t, manhattan(s, t) as nat).reverse()
}

/// `after` is `before` with its old `OnPath` markers cleared and the interior
/// of `p` marked, `Start` and `Target` cells kept.
pub open spec fn marks_path(before: Grid, after: Grid, p: Seq<Cell>) -> bool {
    &&& after.wf()
    &&& after.spec_width() == before.spec_width()
    &&& after.spec_height() == before.spec_height()
    &&& forall|c: Cell| #[trigger] before.contains(c) ==> after.tile(c) == marked(before.tile(c), on_interior(p, c))
}

/// The outcome of a path computation: the path from start to target, both
/// included, or no path.
pub enum PathResult {
    Success(Vec<Cell>),
    NoPath,
}

impl PathResult {
    pub open spec fn spec_is_success(&self) -> bool {
        self is Success
    }

    pub fn is_success(&self) -> (r: bool)
        ensures
            r == self.spec_is_success(),
    {
        match self {
            PathResult::Success(_) => true,
            PathResult::NoPath => false,
        }
    }

    /// The number of edges of a found path; `None` for `NoPath`.
    pub fn edge_count(&self) -> (r: Option<usize>)
        ensures
            match self {
                PathResult::Success(p) => r == Some((if p@.len() >= 1 { p@.len() - 1 } else { 0 }) as usize),
                PathResult::NoPath => r is None,
            },
    {
        match self {
            PathResult::Success(p) => if p.len() >= 1 { Some(p.len() - 1) } else { Some(0) },
            PathResult::NoPath => None,
        }
    }
}

/// Finds a shortest 4-connected path from `start` to `target` with A* and marks
/// it on the grid: earlier `OnPath` markers are cleared and the path's interior
/// cells become `OnPath`, while `Start` and `Target` cells keep their
/// classification. A start or target outside the grid (including an unset
/// one) gives `NoPath` and leaves the grid as it was.
pub fn compute_path(grid: &mut Grid, start: Cell, target: Cell) -> (r: PathResult)
    requires
        old(grid).wf(),
    ensures
        final(grid).wf(),
        final(grid).spec_width() == old(grid).spec_width(),
        final(grid).spec_height() == old(grid).spec_height(),
        !(old(grid).contains(start) && old(grid).contains(target))
            ==> r is NoPath && final(grid)@ == old(grid)@,
        old(grid).contains(start) && old(grid).contains(target) ==> (r matches PathResult::Success(p)
            && is_walk_between(p@, start, target, old(grid).spec_width(), old(grid).spec_height())
            && p@.len() == manhattan(start, target) + 1
            && p@ == planned_path(old(grid).spec_width(), old(grid).spec_height(), start, target)
            && marks_path(*old(grid), *final(grid), p@)),
        start == target && old(grid).contains(start)
            ==> forall|c: Cell| #[trigger] old(grid).contains(c) ==> final(grid).tile(c) != Tile::OnPath,
{
    let w = grid.width();
    let h = grid.height();
    let inside_start = 0 <= start.col && start.col < w && 0 <= start.row && start.row < h;
    let inside_target = 0 <= target.col && target.col < w && 0 <= target.row && target.row < h;
    if !(inside_start && inside_target) {
        return PathResult::NoPath;
    }
    let (found, Ghost(cost)) = search(w, h, start, target);
    match found {
        Some(bp) => {
            let path = trace_back(&bp, w, h, start, target, Ghost(cost));
            mark_path(grid, &path);
            proof {
                if start == target && old(grid).contains(start) {
                    assert forall|c: Cell| #[trigger] old(grid).contains(c) implies grid.tile(c) != Tile::OnPath by {
                        assert(!on_interior(path@, c));
                    }
                }
            }
            PathResult::Success(path)
        },
        None => {
            grid.clear_classification(Tile::OnPath);
            PathResult::NoPath
        },
    }
}

/// Recomputing is deterministic and idempotent: a second computation with the
/// same start and target, on the grid that the first one left, finds the same
/// path and leaves every cell as the first one did.
pub proof fn recompute_is_stable(g0: Grid, g1: Grid, g2: Grid, start: Cell, target: Cell, first: Seq<Cell>, second: Seq<Cell>)
    requires
        g0.wf(),
        first == planned_path(g0.spec_width(), g0.spec_height(), start, target),
        marks_path(g0, g1, first),
        second == planned_path(g1.spec_width(), g1.spec_height(), start, target),
        marks_path(g1, g2, second),
    ensures
        first == second,
        g2.spec_width() == g1.spec_width(),
        g2.spec_height() == g1.spec_height(),
        forall|c: Cell| #[trigger] g1.contains(c) ==> g2.tile(c) == g1.tile(c),
{
    assert forall|c: Cell| #[trigger] g1.contains(c) implies g2.tile(c) == g1.tile(c) by {
        assert(g0.contains(c));
    }
}

/// Computing the path on two grids with the same dimensions and the same
/// classifications gives the same path and the same marked grid.
pub proof fn computation_is_deterministic(g: Grid, h: Grid, a: Grid, b: Grid, start: Cell, target: Cell, p: Seq<Cell>, q: Seq<Cell>)
    requires
        g.spec_width() == h.spec_width(),
        g.spec_height() == h.spec_height(),
        g@ == h@,
        p == planned_path(g.spec_width(), g.spec_height(), start, target),
        marks_path(g, a, p),
        q == planned_path(h.spec_width(), h.spec_height(), start, target),
        marks_path(h, b, q),
    ensures
        p == q,
        forall|c: Cell| #[trigger] g.contains(c) ==> a.tile(c) == b.tile(c),
{
    assert forall|c: Cell| #[trigger] g.contains(c) implies a.tile(c) == b.tile(c) by {
        assert(h.contains(c));
    }
}

/// A computed path is a shortest one: no walk between the same two cells has
/// fewer edges.
pub proof fn computed_path_is_shortest(p: Seq<Cell>, q: Seq<Cell>, start: Cell, target: Cell, w: int, h: int)
    requires
        p.len() == manhattan(start, target) + 1,
        is_walk_between(q, start, target, w, h),
    ensures
        p.len() <= q.len(),
{
    lemma_walk_at_least_manhattan(q, start, target, w, h);
}

} // verus!

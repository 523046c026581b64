//! A min-priority queue of search nodes; duplicates of a cell are kept apart.
use vstd::prelude::*;
use crate::cell::Cell;

verus! {

/// A candidate cell with its estimated total cost (cost so far plus heuristic).
/// With unit edge costs and the Manhattan heuristic every priority is a whole
/// number, so it is held exactly.
#[derive(Clone, Copy, Debug, PartialEq, Eq, Structural)]
pub struct SearchNode {
    pub cell: Cell,
    pub priority: u64,
}

/// `after` is `before` without its entry at `k`, which is `node`, of least priority.
pub open spec fn removes_least(before: Seq<SearchNode>, after: Seq<SearchNode>, node: SearchNode, k: int) -> bool {
    &&& 0 <= k < before.len()
    &&& before[k] == node
    &&& after == before.remove(k)
    &&& forall|j: int| 0 <= j < before.len() ==> node.priority <= #[trigger] before[j].priority
}

/// `k` is the first position holding a least priority.
pub open spec fn is_first_min(fr: Seq<SearchNode>, k: int) -> bool {
    &&& 0 <= k < fr.len()
    &&& forall|j: int| 0 <= j < fr.len() ==> fr[k].priority <= #[trigger] fr[j].priority
    &&& forall|j: int| 0 <= j < k ==> fr[k].priority < #[trigger] fr[j].priority
}

/// The position that `pop_min` takes its node from.
pub open spec fn first_min(fr: Seq<SearchNode>) -> int {
    choose|k: int| is_first_min(fr, k)
}

pub proof fn lemma_first_min_unique(fr: Seq<SearchNode>, k: int)
    requires
        is_first_min(fr, k),
    ensures
        first_min(fr) == k,
{
    let k2 = first_min(fr);
    assert(is_first_min(fr, k2));
    if k2 < k {
        assert(fr[k].priority < fr[k2].priority);
    } else if k < k2 {
        assert(fr[k2].priority < fr[k].priority);
    }
}

pub struct Frontier {
    nodes: Vec<SearchNode>,
}

impl View for Frontier {
    type V = Seq<SearchNode>;

    closed spec fn view(&self) -> Seq<SearchNode> {
        self.nodes@
    }
}

impl Frontier {
    pub fn new() -> (r: Frontier)
        ensures
            r@ == Seq::<SearchNode>::empty(),
    {
        Frontier { nodes: Vec::new() }
    }

    pub fn is_empty(&self) -> (r: bool)
        ensures
            r == (self@.len() == 0),
    {
        self.nodes.len() == 0
    }

    pub fn len(&self) -> (r: usize)
        ensures
            r == self@.len(),
    {
        self.nodes.len()
    }

    pub fn push(&mut self, node: SearchNode)
        ensures
            final(self)@ == old(self)@.push(node),
    {
        self.nodes.push(node);
    }

    /// Removes and returns a node of least priority (the earliest pushed among
    /// equals); `None` when the frontier is empty.
    pub fn pop_min(&mut self) -> (r: Option<SearchNode>)
        ensures
            old(self)@.len() == 0 <==> r is None,
            r is None ==> final(self)@ == old(self)@,
            r matches Some(node) ==> exists|k: int| #[trigger] removes_least(old(self)@, final(self)@, node, k),
            r matches Some(node) ==> node == old(self)@[first_min(old(self)@)]
                && final(self)@ == old(self)@.remove(first_min(old(self)@)),
    {
        let n = self.nodes.len();
        if n == 0 {
            return None;
        }
        let mut best: usize = 0;
        let mut i: usize = 1;
        while i < n
            invariant
                n == self.nodes@.len(),
                self.nodes@ == old(self)@,
                best < i <= n,
                forall|j: int| 0 <= j < i ==> self.nodes@[best as int].priority <= #[trigger] self.nodes@[j].priority,
                forall|j: int| 0 <= j < best ==> self.nodes@[best as int].priority < #[trigger] self.nodes@[j].priority,
            decreases n - i,
        {
            if self.nodes[i].priority < self.nodes[best].priority {
                best = i;
            }
            i = i + 1;
        }
        let ghost before = self@;
        let node = self.nodes.remove(best);
        proof {
            lemma_first_min_unique(before, best as int);
        }
        let r = Some(node);
        assert(r matches Some(m) && removes_least(before, self@, m, best as int));
        r
    }
}

} // verus!

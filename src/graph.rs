use vstd::prelude::*;

verus! {

/// What a node of the precedence graph stands for: the representative cell
/// of a group and the value that all cells of the group hold.
#[derive(Clone, Copy, Debug, Default, PartialEq, Eq, Structural)]
pub struct Pos {
    pub value: i32,
    pub row: usize,
    pub col: usize,
}

impl From<(i32, (usize, usize))> for Pos {
    /// `(value, (row, col))`.
    fn from(x: (i32, (usize, usize))) -> (p: Pos) {
        Pos { value: x.0, row: x.1.0, col: x.1.1 }
    }
}

impl vstd::std_specs::convert::FromSpecImpl<(i32, (usize, usize))> for Pos {
    open spec fn obeys_from_spec() -> bool {
        true
    }

    open spec fn from_spec(x: (i32, (usize, usize))) -> Pos {
        Pos { value: x.0, row: x.1.0, col: x.1.1 }
    }
}

/// The precedence graph over the groups of a matrix: node `u` is a group,
/// an edge `u -> v` says that group `v` must rank above group `u`.
pub struct PrecedenceGraph {
    /// One entry per group.
    pub nodes: Vec<Pos>,
    /// `succ[u]` lists the targets of the edges that leave `u`.
    pub succ: Vec<Vec<usize>>,
    /// The node of the group of each cell, in row-major order.
    pub node_of: Vec<usize>,
}

/// Every edge ends at a node, and no edge is listed twice.
pub open spec fn simple_graph(succ: Seq<Vec<usize>>) -> bool {
    &&& forall|u: int, k: int|
        0 <= u < succ.len() && 0 <= k < succ[u]@.len() ==> (#[trigger] succ[u]@[k]) < succ.len()
    &&& forall|u: int| 0 <= u < succ.len() ==> (#[trigger] succ[u]@).no_duplicates()
}

/// `lab` grows strictly along every edge.
pub open spec fn monotone(succ: Seq<Vec<usize>>, lab: Seq<nat>) -> bool {
    &&& lab.len() == succ.len()
    &&& forall|u: int, k: int|
        0 <= u < succ.len() && 0 <= k < succ[u]@.len() ==> lab[u] < lab[#[trigger] succ[u]@[k] as int]
}

/// The graph has no cycle: some labelling grows along every edge.
pub open spec fn acyclic(succ: Seq<Vec<usize>>) -> bool {
    exists|lab: Seq<nat>| #[trigger] monotone(succ, lab)
}

/// `r` gives each node the number of nodes on a longest path ending there:
/// at least 1, above every predecessor, and exactly one above some
/// predecessor unless it is 1.
pub open spec fn is_leveling(succ: Seq<Vec<usize>>, r: Seq<usize>) -> bool {
    &&& r.len() == succ.len()
    &&& forall|v: int| 0 <= v < r.len() ==> #[trigger] r[v] >= 1
    &&& forall|u: int, k: int|
        0 <= u < succ.len() && 0 <= k < succ[u]@.len() ==> r[u] < r[#[trigger] succ[u]@[k] as int]
    &&& forall|v: int| 0 <= v < r.len() ==> #[trigger] leveled_at(succ, r, v)
}

/// `r[v]` is 1, or exactly one above the rank of a predecessor of `v`.
pub open spec fn leveled_at(succ: Seq<Vec<usize>>, r: Seq<usize>, v: int) -> bool {
    r[v] == 1 || exists|u: int, k: int|
        0 <= u < succ.len() && 0 <= k < succ[u]@.len() && #[trigger] succ[u]@[k] == v && r[u] + 1 == r[v]
}

impl PrecedenceGraph {
    /// Every edge `(u, v)` of the graph, grouped by source in increasing order.
    pub fn edges(&self) -> (e: Vec<(usize, usize)>)
        ensures
            forall|u: usize, v: usize|
                #[trigger] e@.contains((u, v)) <==> u < self.succ@.len() && self.succ@[u as int]@.contains(v),
            forall|a: int, b: int| 0 <= a < b < e@.len() ==> (#[trigger] e@[a]).0 <= (#[trigger] e@[b]).0,
    {
        let mut e: Vec<(usize, usize)> = Vec::new();
        let n = self.succ.len();
        let mut u: usize = 0;
        while u < n
            invariant
                n == self.succ@.len(),
                u <= n,
                forall|x: usize, v: usize|
                    #[trigger] e@.contains((x, v)) <==> x < u && self.succ@[x as int]@.contains(v),
                forall|a: int, b: int| 0 <= a < b < e@.len() ==> (#[trigger] e@[a]).0 <= (#[trigger] e@[b]).0,
                forall|a: int| 0 <= a < e@.len() ==> (#[trigger] e@[a]).0 <= u,
            decreases n - u,
        {
            let mut k: usize = 0;
            while k < self.succ[u].len()
                invariant
                    n == self.succ@.len(),
                    u < n,
                    k <= self.succ@[u as int]@.len(),
                    forall|x: usize, v: usize|
                        #[trigger] e@.contains((x, v)) <==> (x < u && self.succ@[x as int]@.contains(v)) || (x
                            == u && self.succ@[u as int]@.subrange(0, k as int).contains(v)),
                    forall|a: int, b: int| 0 <= a < b < e@.len() ==> (#[trigger] e@[a]).0 <= (#[trigger] e@[b]).0,
                    forall|a: int| 0 <= a < e@.len() ==> (#[trigger] e@[a]).0 <= u,
                decreases self.succ@[u as int]@.len() - k,
            {
                let v = self.succ[u][k];
                let ghost before = e@;
                e.push((u, v));
                assert forall|a: int| 0 <= a < before.len() implies e@[a] == before[a] by {}
                assert forall|x: usize, w: usize|
                    #[trigger] e@.contains((x, w)) <==> (x < u && self.succ@[x as int]@.contains(w)) || (x == u
                        && self.succ@[u as int]@.subrange(0, k + 1).contains(w)) by {
                    let s0 = self.succ@[u as int]@.subrange(0, k as int);
                    let s1 = self.succ@[u as int]@.subrange(0, k + 1);
                    assert(s1 == s0.push(v));
                    if e@.contains((x, w)) && (x, w) != (u, v) {
                        let t = choose|t: int| 0 <= t < e@.len() && e@[t] == (x, w);
                        assert(before[t] == (x, w));
                    }
                    if x == u && s1.contains(w) && w != v {
                        let t = choose|t: int| 0 <= t < s1.len() && s1[t] == w;
                        assert(s0[t] == w);
                        assert(before.contains((x, w)));
                        let t2 = choose|t2: int| 0 <= t2 < before.len() && before[t2] == (x, w);
                        assert(e@[t2] == (x, w));
                    }
                    if before.contains((x, w)) {
                        let t2 = choose|t2: int| 0 <= t2 < before.len() && before[t2] == (x, w);
                        assert(e@[t2] == (x, w));
                    }
                    if x == u && s0.contains(w) {
                        let t = choose|t: int| 0 <= t < s0.len() && s0[t] == w;
                        assert(s1[t] == w);
                    }
                    assert(e@[e@.len() - 1] == (u, v));
                    assert(s1[k as int] == v);
                }
                k = k + 1;
            }
            assert(self.succ@[u as int]@.subrange(0, k as int) =~= self.succ@[u as int]@);
            u = u + 1;
        }
        e
    }
}

} // verus!

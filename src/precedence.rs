use vstd::prelude::*;
use crate::graph::{acyclic, monotone, simple_graph, Pos, PrecedenceGraph};
use crate::grid::{
    at, grid, in_grid, lemma_linked_alike, linked, rectangular, share_line, tied, width,
};
use crate::leveling::repeat;
use crate::ordered::{OrderedVec, strictly_sorted};
use crate::transform::Solution;
use crate::union_find::{is_partition, UnionFind};

verus! {

/// The position of cell `c` in row-major order, for `n` columns.
pub open spec fn flat(n: int, c: (int, int)) -> int {
    c.0 * n + c.1
}

/// The node that `node_of` gives to cell `c` of `m`.
pub open spec fn node_at(m: Seq<Seq<int>>, node_of: Seq<usize>, c: (int, int)) -> int {
    node_of[flat(width(m), c)] as int
}

/// A row or a column of the matrix.
#[derive(Clone, Copy)]
pub enum Line {
    Row(usize),
    Col(usize),
}

/// The `p`-th cell of a line.
pub open spec fn line_cell(line: Line, p: int) -> (int, int) {
    match line {
        Line::Row(i) => (i as int, p),
        Line::Col(j) => (p, j as int),
    }
}

/// The number of cells of a line of `m`.
pub open spec fn line_len(m: Seq<Seq<int>>, line: Line) -> int {
    match line {
        Line::Row(_) => width(m),
        Line::Col(_) => m.len() as int,
    }
}

pub open spec fn line_in_grid(m: Seq<Seq<int>>, line: Line) -> bool {
    match line {
        Line::Row(i) => i < m.len(),
        Line::Col(j) => j < width(m),
    }
}

/// `node_of` gives every cell of `m` a node below `count`, the same node to
/// tied cells.
pub open spec fn labels_cells(m: Seq<Seq<int>>, node_of: Seq<usize>, count: int) -> bool {
    &&& rectangular(m)
    &&& node_of.len() == m.len() * width(m)
    &&& forall|c: (int, int)| in_grid(m, c) ==> #[trigger] node_at(m, node_of, c) < count
    &&& forall|a: (int, int), b: (int, int)|
        #![trigger node_at(m, node_of, a), node_at(m, node_of, b)]
        tied(m, a, b) ==> node_at(m, node_of, a) == node_at(m, node_of, b)
}

/// Some cell of node `u` shares a line with a cell of node `v` that holds
/// a larger value.
pub open spec fn edge_reason(m: Seq<Seq<int>>, node_of: Seq<usize>, u: int, v: int) -> bool {
    exists|a: (int, int), b: (int, int)|
        #![trigger node_at(m, node_of, a), node_at(m, node_of, b)]
        in_grid(m, a) && in_grid(m, b) && share_line(a, b) && at(m, a) < at(m, b) && node_at(
            m,
            node_of,
            a,
        ) == u && node_at(m, node_of, b) == v
}

/// Every edge of `succ` has a reason in `m`.
pub open spec fn edges_reasoned(m: Seq<Seq<int>>, node_of: Seq<usize>, succ: Seq<Vec<usize>>) -> bool {
    forall|u: int, k: int|
        0 <= u < succ.len() && 0 <= k < succ[u]@.len() ==> edge_reason(
            m,
            node_of,
            u,
            #[trigger] succ[u]@[k] as int,
        )
}

/// On the line, a labelling that grows along every edge of `succ` puts the
/// node of a smaller value below the node of a larger one.
pub open spec fn orders_line(
    m: Seq<Seq<int>>,
    node_of: Seq<usize>,
    succ: Seq<Vec<usize>>,
    line: Line,
) -> bool {
    forall|lab: Seq<nat>|
        #[trigger] monotone(succ, lab) ==> forall|p: int, q: int|
            #![trigger node_at(m, node_of, line_cell(line, p)), node_at(m, node_of, line_cell(line, q))]
            0 <= p < line_len(m, line) && 0 <= q < line_len(m, line) && at(m, line_cell(line, p)) < at(
                m,
                line_cell(line, q),
            ) ==> lab[node_at(m, node_of, line_cell(line, p))] < lab[node_at(
                m,
                node_of,
                line_cell(line, q),
            )]
}

/// Some entry of `sorted` is the value and the node of the `q`-th cell of `line`.
pub open spec fn covers(
    m: Seq<Seq<int>>,
    node_of: Seq<usize>,
    line: Line,
    sorted: Seq<(i32, usize)>,
    q: int,
) -> bool {
    exists|t: int|
        0 <= t < sorted.len() && (#[trigger] sorted[t]).0 as int == at(m, line_cell(line, q))
            && sorted[t].1 as int == node_at(m, node_of, line_cell(line, q))
}

/// `e` is the value and the node of some cell of `line`.
pub open spec fn from_line(m: Seq<Seq<int>>, node_of: Seq<usize>, line: Line, e: (i32, usize)) -> bool {
    exists|q: int|
        0 <= q < line_len(m, line) && e.0 as int == at(m, #[trigger] line_cell(line, q)) && e.1 as int
            == node_at(m, node_of, line_cell(line, q))
}

/// On `line`, a cell of node `u` and a cell of node `v` hold values with no
/// value of the line strictly between them, the one of `v` being larger:
/// the edge `u -> v` covers them.
pub open spec fn covering(m: Seq<Seq<int>>, node_of: Seq<usize>, line: Line, u: int, v: int) -> bool {
    exists|p: int, q: int|
        #![trigger node_at(m, node_of, line_cell(line, p)), node_at(m, node_of, line_cell(line, q))]
        0 <= p < line_len(m, line) && 0 <= q < line_len(m, line) && node_at(m, node_of, line_cell(line, p))
            == u && node_at(m, node_of, line_cell(line, q)) == v && at(m, line_cell(line, p)) < at(
            m,
            line_cell(line, q),
        ) && forall|r: int|
            0 <= r < line_len(m, line) ==> !(at(m, line_cell(line, p)) < #[trigger] at(
                m,
                line_cell(line, r),
            ) < at(m, line_cell(line, q)))
}

/// `next` holds every edge of `prev`, at the same place, and maybe more.
pub open spec fn extends(prev: Seq<Vec<usize>>, next: Seq<Vec<usize>>) -> bool {
    &&& next.len() == prev.len()
    &&& forall|u: int| 0 <= u < prev.len() ==> (#[trigger] prev[u]@).is_prefix_of(next[u]@)
}

/// `rep` gives each cell of `m`, in row-major order, the representative of
/// its group: cells with one representative are linked, tied cells have one.
pub open spec fn groups_of(m: Seq<Seq<int>>, rep: Seq<usize>) -> bool {
    &&& rectangular(m)
    &&& rep.len() == m.len() * width(m)
    &&& is_partition(rep)
    &&& forall|a: (int, int), b: (int, int)|
        #![trigger rep[flat(width(m), a)], rep[flat(width(m), b)]]
        in_grid(m, a) && in_grid(m, b) ==> (rep[flat(width(m), a)] == rep[flat(width(m), b)] <==> linked(
            m,
            a,
            b,
        ))
}

/// `g` is the precedence graph of `m`: one node per group, carrying a cell
/// of the group and its value, and edges that order every row and column.
pub open spec fn describes(m: Seq<Seq<int>>, g: PrecedenceGraph) -> bool {
    let node_of = g.node_of@;
    let count = g.nodes@.len() as int;
    &&& labels_cells(m, node_of, count)
    &&& g.succ@.len() == count
    &&& count <= m.len() * width(m)
    &&& simple_graph(g.succ@)
    &&& forall|a: (int, int), b: (int, int)|
        #![trigger node_at(m, node_of, a), node_at(m, node_of, b)]
        in_grid(m, a) && in_grid(m, b) && node_at(m, node_of, a) == node_at(m, node_of, b) ==> linked(
            m,
            a,
            b,
        )
    &&& forall|u: int| 0 <= u < count ==> #[trigger] represents(m, node_of, g.nodes@[u], u)
    &&& edges_reasoned(m, node_of, g.succ@)
    &&& covering_edges(m, node_of, g.succ@)
    &&& forall|line: Line| line_in_grid(m, line) ==> #[trigger] orders_line(m, node_of, g.succ@, line)
    &&& acyclic(g.succ@)
}

/// Every edge covers a pair on some row or column.
pub open spec fn edges_covering(m: Seq<Seq<int>>, node_of: Seq<usize>, succ: Seq<Vec<usize>>) -> bool {
    forall|u: int, k: int|
        #![trigger succ[u]@[k]]
        0 <= u < succ.len() && 0 <= k < succ[u]@.len() ==> covered(m, node_of, u, succ[u]@[k] as int)
}

/// On some row or column the edge `u -> v` covers a pair.
pub open spec fn covered(m: Seq<Seq<int>>, node_of: Seq<usize>, u: int, v: int) -> bool {
    exists|line: Line| line_in_grid(m, line) && #[trigger] covering(m, node_of, line, u, v)
}

/// The edges are exactly the covering pairs of the rows and the columns.
pub open spec fn covering_edges(m: Seq<Seq<int>>, node_of: Seq<usize>, succ: Seq<Vec<usize>>) -> bool {
    &&& edges_covering(m, node_of, succ)
    &&& forall|line: Line, u: int, v: int|
        line_in_grid(m, line) && 0 <= u < succ.len() && #[trigger] covering(m, node_of, line, u, v)
            ==> succ[u]@.contains(v as usize)
}

/// `p` is a cell of node `u` and holds its value.
pub open spec fn represents(m: Seq<Seq<int>>, node_of: Seq<usize>, p: Pos, u: int) -> bool {
    let c = (p.row as int, p.col as int);
    &&& in_grid(m, c)
    &&& node_at(m, node_of, c) == u
    &&& p.value as int == at(m, c)
}

pub proof fn lemma_flat_bound(m: Seq<Seq<int>>, c: (int, int))
    requires
        rectangular(m),
        in_grid(m, c),
    ensures
        0 <= c.0 * width(m) <= flat(width(m), c) < m.len() * width(m),
{
    let n = width(m);
    assert(m[c.0].len() == n);
    let (i, j) = c;
    let rows = m.len() as int;
    assert(0 <= i * n <= i * n + j < rows * n) by (nonlinear_arith)
        requires
            0 <= i < rows,
            0 <= j < n,
    ;
}

proof fn lemma_extends_monotone(prev: Seq<Vec<usize>>, next: Seq<Vec<usize>>, lab: Seq<nat>)
    requires
        extends(prev, next),
        monotone(next, lab),
    ensures
        monotone(prev, lab),
{
    assert forall|u: int, k: int| 0 <= u < prev.len() && 0 <= k < prev[u]@.len() implies lab[u] < lab[
    #[trigger] prev[u]@[k] as int] by {
        assert(prev[u]@.is_prefix_of(next[u]@));
        assert(next[u]@.subrange(0, prev[u]@.len() as int)[k] == next[u]@[k]);
        assert(lab[u] < lab[next[u]@[k] as int]);
    }
}

proof fn lemma_orders_extends(
    m: Seq<Seq<int>>,
    node_of: Seq<usize>,
    prev: Seq<Vec<usize>>,
    next: Seq<Vec<usize>>,
    line: Line,
)
    requires
        orders_line(m, node_of, prev, line),
        extends(prev, next),
    ensures
        orders_line(m, node_of, next, line),
{
    assert forall|lab: Seq<nat>| #[trigger] monotone(next, lab) implies monotone(prev, lab) by {
        lemma_extends_monotone(prev, next, lab);
    }
}

/// Linking one more line keeps every edge covering, and keeps every edge.
proof fn lemma_link_step(
    m: Seq<Seq<int>>,
    node_of: Seq<usize>,
    prev: Seq<Vec<usize>>,
    next: Seq<Vec<usize>>,
    line: Line,
)
    requires
        line_in_grid(m, line),
        extends(prev, next),
        edges_covering(m, node_of, prev),
        forall|u: int, k: int|
            0 <= u < next.len() && prev[u]@.len() <= k < next[u]@.len() ==> covering(
                m,
                node_of,
                line,
                u,
                #[trigger] next[u]@[k] as int,
            ),
    ensures
        edges_covering(m, node_of, next),
        forall|u: int, v: usize| 0 <= u < prev.len() && #[trigger] prev[u]@.contains(v) ==> next[u]@.contains(v),
{
    assert forall|u: int, k: int|
        #![trigger next[u]@[k]]
        0 <= u < next.len() && 0 <= k < next[u]@.len() implies covered(m, node_of, u, next[u]@[k] as int) by {
        if k < prev[u]@.len() {
            assert(prev[u]@.is_prefix_of(next[u]@));
            assert(next[u]@.subrange(0, prev[u]@.len() as int)[k] == next[u]@[k]);
            assert(prev[u]@[k] == next[u]@[k]);
            assert(covered(m, node_of, u, prev[u]@[k] as int));
        } else {
            assert(covering(m, node_of, line, u, next[u]@[k] as int));
        }
    }
    assert forall|u: int, v: usize| 0 <= u < prev.len() && #[trigger] prev[u]@.contains(v) implies next[
        u]@.contains(v) by {
        assert(prev[u]@.is_prefix_of(next[u]@));
        let k = choose|k: int| 0 <= k < prev[u]@.len() && prev[u]@[k] == v;
        assert(next[u]@.subrange(0, prev[u]@.len() as int)[k] == next[u]@[k]);
    }
}

/// A labelling that grows along the edges grows along the sorted line.
proof fn lemma_line_ordered(
    m: Seq<Seq<int>>,
    node_of: Seq<usize>,
    succ: Seq<Vec<usize>>,
    line: Line,
    sorted: Seq<(i32, usize)>,
)
    requires
        strictly_sorted(sorted),
        forall|q: int| 0 <= q < line_len(m, line) ==> #[trigger] covers(m, node_of, line, sorted, q),
        forall|t: int| 0 <= t < sorted.len() ==> (#[trigger] sorted[t]).1 < succ.len(),
        forall|s: int|
            0 <= s < sorted.len() - 1 ==> (#[trigger] succ[sorted[s].1 as int]@).contains(sorted[s + 1].1),
    ensures
        orders_line(m, node_of, succ, line),
{
    let chain = Seq::new(sorted.len(), |t: int| sorted[t].1);
    assert forall|t: int| 0 <= t < chain.len() implies #[trigger] chain[t] < succ.len() by {
        assert(sorted[t].1 < succ.len());
    }
    assert forall|t: int| 0 <= t < chain.len() - 1 implies (#[trigger] succ[chain[t] as int]@).contains(
        chain[t + 1],
    ) by {
        assert(succ[sorted[t].1 as int]@.contains(sorted[t + 1].1));
    }
    assert forall|lab: Seq<nat>| #[trigger] monotone(succ, lab) implies forall|p: int, q: int|
        #![trigger node_at(m, node_of, line_cell(line, p)), node_at(m, node_of, line_cell(line, q))]
        0 <= p < line_len(m, line) && 0 <= q < line_len(m, line) && at(m, line_cell(line, p)) < at(
            m,
            line_cell(line, q),
        ) ==> lab[node_at(m, node_of, line_cell(line, p))] < lab[node_at(
            m,
            node_of,
            line_cell(line, q),
        )] by {
        assert forall|p: int, q: int|
            0 <= p < line_len(m, line) && 0 <= q < line_len(m, line) && at(m, line_cell(line, p)) < at(
                m,
                line_cell(line, q),
            ) implies lab[node_at(m, node_of, #[trigger] line_cell(line, p))] < lab[node_at(
            m,
            node_of,
            #[trigger] line_cell(line, q),
        )] by {
            assert(covers(m, node_of, line, sorted, p));
            assert(covers(m, node_of, line, sorted, q));
            let t1 = choose|t: int|
                0 <= t < sorted.len() && (#[trigger] sorted[t]).0 as int == at(m, line_cell(line, p))
                    && sorted[t].1 as int == node_at(m, node_of, line_cell(line, p));
            let t2 = choose|t: int|
                0 <= t < sorted.len() && (#[trigger] sorted[t]).0 as int == at(m, line_cell(line, q))
                    && sorted[t].1 as int == node_at(m, node_of, line_cell(line, q));
            if t1 >= t2 {
                if t1 > t2 {
                    assert(sorted[t2].0 < sorted[t1].0);
                }
            } else {
                lemma_chain(succ, lab, chain, t1, t2);
            }
        }
    }
}

/// The edge between consecutive entries of a sorted line covers them.
proof fn lemma_consecutive_covering(
    m: Seq<Seq<int>>,
    node_of: Seq<usize>,
    line: Line,
    sorted: Seq<(i32, usize)>,
    t: int,
)
    requires
        strictly_sorted(sorted),
        forall|i: int| 0 <= i < sorted.len() ==> #[trigger] from_line(m, node_of, line, sorted[i]),
        forall|q: int| 0 <= q < line_len(m, line) ==> #[trigger] covers(m, node_of, line, sorted, q),
        0 <= t < sorted.len() - 1,
    ensures
        covering(m, node_of, line, sorted[t].1 as int, sorted[t + 1].1 as int),
{
    assert(from_line(m, node_of, line, sorted[t]));
    assert(from_line(m, node_of, line, sorted[t + 1]));
    let p = choose|q: int|
        0 <= q < line_len(m, line) && sorted[t].0 as int == at(m, #[trigger] line_cell(line, q))
            && sorted[t].1 as int == node_at(m, node_of, line_cell(line, q));
    let q = choose|q: int|
        0 <= q < line_len(m, line) && sorted[t + 1].0 as int == at(m, #[trigger] line_cell(line, q))
            && sorted[t + 1].1 as int == node_at(m, node_of, line_cell(line, q));
    assert(sorted[t].0 < sorted[t + 1].0);
    assert forall|r: int| 0 <= r < line_len(m, line) implies !(at(m, line_cell(line, p)) < #[trigger] at(
        m,
        line_cell(line, r),
    ) < at(m, line_cell(line, q))) by {
        assert(covers(m, node_of, line, sorted, r));
        let tr = choose|i: int|
            0 <= i < sorted.len() && (#[trigger] sorted[i]).0 as int == at(m, line_cell(line, r))
                && sorted[i].1 as int == node_at(m, node_of, line_cell(line, r));
        if tr <= t {
            if tr < t {
                assert(sorted[tr].0 < sorted[t].0);
            }
        } else if tr > t + 1 {
            assert(sorted[t + 1].0 < sorted[tr].0);
        }
    }
}

/// A covering pair of a sorted line is a pair of consecutive entries.
proof fn lemma_covering_consecutive(
    m: Seq<Seq<int>>,
    node_of: Seq<usize>,
    line: Line,
    sorted: Seq<(i32, usize)>,
    u: int,
    v: int,
)
    requires
        strictly_sorted(sorted),
        forall|i: int| 0 <= i < sorted.len() ==> #[trigger] from_line(m, node_of, line, sorted[i]),
        forall|q: int| 0 <= q < line_len(m, line) ==> #[trigger] covers(m, node_of, line, sorted, q),
        covering(m, node_of, line, u, v),
    ensures
        exists|t: int| 0 <= t < sorted.len() - 1 && sorted[t].1 == u && #[trigger] sorted[t + 1].1 == v,
{
    let (p, q) = choose|p: int, q: int|
        #![trigger node_at(m, node_of, line_cell(line, p)), node_at(m, node_of, line_cell(line, q))]
        0 <= p < line_len(m, line) && 0 <= q < line_len(m, line) && node_at(m, node_of, line_cell(line, p))
            == u && node_at(m, node_of, line_cell(line, q)) == v && at(m, line_cell(line, p)) < at(
            m,
            line_cell(line, q),
        ) && forall|r: int|
            0 <= r < line_len(m, line) ==> !(at(m, line_cell(line, p)) < #[trigger] at(
                m,
                line_cell(line, r),
            ) < at(m, line_cell(line, q)));
    assert(covers(m, node_of, line, sorted, p));
    assert(covers(m, node_of, line, sorted, q));
    let t1 = choose|t: int|
        0 <= t < sorted.len() && (#[trigger] sorted[t]).0 as int == at(m, line_cell(line, p))
            && sorted[t].1 as int == node_at(m, node_of, line_cell(line, p));
    let t2 = choose|t: int|
        0 <= t < sorted.len() && (#[trigger] sorted[t]).0 as int == at(m, line_cell(line, q))
            && sorted[t].1 as int == node_at(m, node_of, line_cell(line, q));
    if t2 <= t1 {
        if t2 < t1 {
            assert(sorted[t2].0 < sorted[t1].0);
        }
    }
    if t2 > t1 + 1 {
        let mid = sorted[t1 + 1];
        assert(from_line(m, node_of, line, mid));
        let r = choose|r: int|
            0 <= r < line_len(m, line) && mid.0 as int == at(m, #[trigger] line_cell(line, r)) && mid.1 as int
                == node_at(m, node_of, line_cell(line, r));
        assert(sorted[t1].0 < mid.0);
        assert(mid.0 < sorted[t2].0);
        assert(!(at(m, line_cell(line, p)) < at(m, line_cell(line, r)) < at(m, line_cell(line, q))));
    }
    assert(sorted[t1].1 == u && sorted[t1 + 1].1 == v);
}

/// A covering pair shares a line with a larger value.
proof fn lemma_covering_reason(m: Seq<Seq<int>>, node_of: Seq<usize>, line: Line, u: int, v: int)
    requires
        line_in_grid(m, line),
        rectangular(m),
        covering(m, node_of, line, u, v),
    ensures
        edge_reason(m, node_of, u, v),
{
    let (p, q) = choose|p: int, q: int|
        #![trigger node_at(m, node_of, line_cell(line, p)), node_at(m, node_of, line_cell(line, q))]
        0 <= p < line_len(m, line) && 0 <= q < line_len(m, line) && node_at(m, node_of, line_cell(line, p))
            == u && node_at(m, node_of, line_cell(line, q)) == v && at(m, line_cell(line, p)) < at(
            m,
            line_cell(line, q),
        ) && forall|r: int|
            0 <= r < line_len(m, line) ==> !(at(m, line_cell(line, p)) < #[trigger] at(
                m,
                line_cell(line, r),
            ) < at(m, line_cell(line, q)));
    let a = line_cell(line, p);
    let b = line_cell(line, q);
    match line {
        Line::Row(i) => {
            assert(m[i as int].len() == width(m));
        },
        Line::Col(j) => {
            assert(m[p].len() == width(m));
            assert(m[q].len() == width(m));
        },
    }
    assert(in_grid(m, a) && in_grid(m, b) && share_line(a, b));
}

/// Labels grow along a path of edges.
proof fn lemma_chain(succ: Seq<Vec<usize>>, lab: Seq<nat>, chain: Seq<usize>, a: int, b: int)
    requires
        monotone(succ, lab),
        forall|t: int| 0 <= t < chain.len() ==> #[trigger] chain[t] < succ.len(),
        forall|t: int|
            0 <= t < chain.len() - 1 ==> (#[trigger] succ[chain[t] as int]@).contains(chain[t + 1]),
        0 <= a < b < chain.len(),
    ensures
        lab[chain[a] as int] < lab[chain[b] as int],
    decreases b - a,
{
    let x = chain[b - 1] as int;
    assert(succ[x]@.contains(chain[b]));
    let k = choose|k: int| 0 <= k < succ[x]@.len() && succ[x]@[k] == chain[b];
    assert(lab[x] < lab[succ[x]@[k] as int]);
    if a < b - 1 {
        lemma_chain(succ, lab, chain, a, b - 1);
    }
}

impl Solution {
    /// Builds the precedence graph of `matrix` over the groups that `uf`
    /// holds: one node per group, and on every row and every column an edge
    /// from the node of each value to the node of the next larger value.
    pub fn force_graph(matrix: &Vec<Vec<i32>>, uf: &mut UnionFind) -> (g: PrecedenceGraph)
        requires
            old(uf).wf(),
            groups_of(grid(matrix@), old(uf)@),
        ensures
            final(uf).wf(),
            final(uf)@ == old(uf)@,
            describes(grid(matrix@), g),
            forall|u: int|
                0 <= u < g.nodes@.len() ==> {
                    let c = (#[trigger] g.nodes@[u].row as int, g.nodes@[u].col as int);
                    old(uf)@[flat(width(grid(matrix@)), c)] == flat(width(grid(matrix@)), c)
                },
    {
        let ghost m = grid(matrix@);
        proof {
            uf.lemma_partition();
        }
        let (nodes, slot) = make_nodes(matrix, uf);
        let node_of = assign_nodes(uf, &slot, nodes.len());
        let ghost rep = uf@;
        assert forall|a: (int, int), b: (int, int)|
            #![trigger node_at(m, node_of@, a), node_at(m, node_of@, b)]
            in_grid(m, a) && in_grid(m, b) && node_at(m, node_of@, a) == node_at(m, node_of@, b) implies linked(
            m,
            a,
            b,
        ) by {
            lemma_flat_bound(m, a);
            lemma_flat_bound(m, b);
            let ra = rep[flat(width(m), a)] as int;
            let rb = rep[flat(width(m), b)] as int;
            assert(rep[ra] == ra && rep[rb] == rb);
            assert(ra == rb);
        }
        assert(labels_cells(m, node_of@, nodes@.len() as int)) by {
            assert forall|c: (int, int)| in_grid(m, c) implies #[trigger] node_at(m, node_of@, c) < nodes@.len() by {
                lemma_flat_bound(m, c);
                let r = rep[flat(width(m), c)] as int;
                assert(rep[r] == r);
            }
            assert forall|a: (int, int), b: (int, int)| tied(m, a, b) implies #[trigger] node_at(m, node_of@, a)
                == #[trigger] node_at(m, node_of@, b) by {
                lemma_flat_bound(m, a);
                lemma_flat_bound(m, b);
                crate::grid::lemma_tied_linked(m, a, b);
                assert(rep[flat(width(m), a)] == rep[flat(width(m), b)]);
            }
        }
        assert forall|u: int| 0 <= u < nodes@.len() implies #[trigger] represents(m, node_of@, nodes@[u], u) by {
            let c = (nodes@[u].row as int, nodes@[u].col as int);
            lemma_flat_bound(m, c);
        }
        let succ = link_all(matrix, &node_of, nodes.len());
        let g = PrecedenceGraph { nodes, succ, node_of };
        proof {
            lemma_values_order(m, g);
        }
        g
    }
}

/// One node for each representative cell, in row-major order; `slot` gives
/// the node of each representative.
fn make_nodes(matrix: &Vec<Vec<i32>>, uf: &mut UnionFind) -> (res: (Vec<Pos>, Vec<usize>))
    requires
        old(uf).wf(),
        groups_of(grid(matrix@), old(uf)@),
    ensures
        final(uf).wf(),
        final(uf)@ == old(uf)@,
        res.1@.len() == old(uf)@.len(),
        res.0@.len() <= old(uf)@.len(),
        forall|g: int|
            0 <= g < res.0@.len() ==> {
                let c = (#[trigger] res.0@[g].row as int, res.0@[g].col as int);
                &&& in_grid(grid(matrix@), c)
                &&& old(uf)@[flat(width(grid(matrix@)), c)] == flat(width(grid(matrix@)), c)
                &&& res.1@[flat(width(grid(matrix@)), c)] == g
                &&& res.0@[g].value as int == at(grid(matrix@), c)
            },
        forall|y: int|
            0 <= y < old(uf)@.len() && old(uf)@[y] == y ==> #[trigger] res.1@[y] < res.0@.len()
                && flat(width(grid(matrix@)), (res.0@[res.1@[y] as int].row as int, res.0@[res.1@[y] as int].col as int)) == y,
{
    let ghost m = grid(matrix@);
    let ghost rep = uf@;
    let total = uf.len();
    let rows = matrix.len();
    let cols = if rows == 0 {
        0
    } else {
        matrix[0].len()
    };
    assert(cols == width(m));
    let mut slot = repeat(0usize, total);
    let mut nodes: Vec<Pos> = Vec::new();
    let mut i: usize = 0;
    let mut x: usize = 0;
    while i < rows
        invariant
            m == grid(matrix@),
            rectangular(m),
            rows == m.len(),
            cols == width(m),
            total == rows * cols,
            uf.wf(),
            uf@ == rep,
            rep.len() == total,
            i <= rows,
            x == i * cols,
            slot@.len() == total,
            nodes@.len() <= x,
            forall|g: int|
                0 <= g < nodes@.len() ==> {
                    let c = (#[trigger] nodes@[g].row as int, nodes@[g].col as int);
                    &&& in_grid(m, c)
                    &&& flat(cols as int, c) < x
                    &&& rep[flat(cols as int, c)] == flat(cols as int, c)
                    &&& slot@[flat(cols as int, c)] == g
                    &&& nodes@[g].value as int == at(m, c)
                },
            forall|y: int|
                0 <= y < x && rep[y] == y ==> #[trigger] slot@[y] < nodes@.len() && flat(
                    cols as int,
                    (nodes@[slot@[y] as int].row as int, nodes@[slot@[y] as int].col as int),
                ) == y,
        decreases rows - i,
    {
        let mut j: usize = 0;
        while j < cols
            invariant
                m == grid(matrix@),
                rectangular(m),
                rows == m.len(),
                cols == width(m),
                total == rows * cols,
                uf.wf(),
                uf@ == rep,
                rep.len() == total,
                i < rows,
                j <= cols,
                x == i * cols + j,
                slot@.len() == total,
                nodes@.len() <= x,
                forall|g: int|
                    0 <= g < nodes@.len() ==> {
                        let c = (#[trigger] nodes@[g].row as int, nodes@[g].col as int);
                        &&& in_grid(m, c)
                        &&& flat(cols as int, c) < x
                        &&& rep[flat(cols as int, c)] == flat(cols as int, c)
                        &&& slot@[flat(cols as int, c)] == g
                        &&& nodes@[g].value as int == at(m, c)
                    },
                forall|y: int|
                    0 <= y < x && rep[y] == y ==> #[trigger] slot@[y] < nodes@.len() && flat(
                        cols as int,
                        (nodes@[slot@[y] as int].row as int, nodes@[slot@[y] as int].col as int),
                    ) == y,
            decreases cols - j,
        {
            proof {
                lemma_flat_bound(m, (i as int, j as int));
            }
            assert(m[i as int].len() == cols);
            let r = uf.find(x);
            if r == x {
                let ghost before = nodes@;
                slot.set(x, nodes.len());
                nodes.push(Pos { value: matrix[i][j], row: i, col: j });
                assert(nodes@[before.len() as int] == Pos { value: matrix@[i as int]@[j as int], row: i, col: j });
                assert forall|g: int| 0 <= g < before.len() implies nodes@[g] == before[g] by {}
            }
            x = x + 1;
            j = j + 1;
        }
        assert(x == (i + 1) * cols) by (nonlinear_arith)
            requires
                x == i * cols + cols,
        ;
        i = i + 1;
    }
    assert(x == total);
    (nodes, slot)
}

/// The node of each cell: the node of its representative.
fn assign_nodes(uf: &mut UnionFind, slot: &Vec<usize>, count: usize) -> (node_of: Vec<usize>)
    requires
        old(uf).wf(),
        is_partition(old(uf)@),
        slot@.len() == old(uf)@.len(),
        forall|y: int| 0 <= y < old(uf)@.len() && old(uf)@[y] == y ==> #[trigger] slot@[y] < count,
    ensures
        final(uf).wf(),
        final(uf)@ == old(uf)@,
        node_of@.len() == old(uf)@.len(),
        forall|y: int| 0 <= y < node_of@.len() ==> #[trigger] node_of@[y] == slot@[old(uf)@[y] as int],
{
    let n = uf.len();
    let mut node_of: Vec<usize> = Vec::new();
    let mut x: usize = 0;
    while x < n
        invariant
            uf.wf(),
            uf@ == old(uf)@,
            is_partition(uf@),
            n == uf@.len(),
            x <= n,
            slot@.len() == n,
            node_of@.len() == x,
            forall|y: int| 0 <= y < x ==> #[trigger] node_of@[y] == slot@[uf@[y] as int],
        decreases n - x,
    {
        let r = uf.find(x);
        node_of.push(slot[r]);
        x = x + 1;
    }
    node_of
}

/// The edges of every row and every column.
fn link_all(matrix: &Vec<Vec<i32>>, node_of: &Vec<usize>, count: usize) -> (succ: Vec<Vec<usize>>)
    requires
        labels_cells(grid(matrix@), node_of@, count as int),
    ensures
        succ@.len() == count,
        simple_graph(succ@),
        edges_reasoned(grid(matrix@), node_of@, succ@),
        forall|line: Line| line_in_grid(grid(matrix@), line) ==> #[trigger] orders_line(grid(matrix@), node_of@, succ@, line),
        covering_edges(grid(matrix@), node_of@, succ@),
{
    let ghost m = grid(matrix@);
    let mut succ: Vec<Vec<usize>> = Vec::new();
    let mut u: usize = 0;
    while u < count
        invariant
            u <= count,
            succ@.len() == u,
            forall|x: int| 0 <= x < u ==> (#[trigger] succ@[x])@.len() == 0,
        decreases count - u,
    {
        succ.push(Vec::new());
        u = u + 1;
    }
    let rows = matrix.len();
    let mut i: usize = 0;
    while i < rows
        invariant
            m == grid(matrix@),
            rows == m.len(),
            i <= rows,
            labels_cells(m, node_of@, succ@.len() as int),
            succ@.len() == count,
            simple_graph(succ@),
            edges_reasoned(m, node_of@, succ@),
            forall|r: usize| r < i ==> #[trigger] orders_line(m, node_of@, succ@, Line::Row(r)),
            edges_covering(m, node_of@, succ@),
            forall|r: usize, x: int, y: int|
                r < i && 0 <= x < succ@.len() && #[trigger] covering(m, node_of@, Line::Row(r), x, y)
                    ==> succ@[x]@.contains(y as usize),
        decreases rows - i,
    {
        let ghost prev = succ@;
        link_line(matrix, node_of, &mut succ, Line::Row(i));
        proof {
            lemma_link_step(m, node_of@, prev, succ@, Line::Row(i));
            assert forall|r: usize, x: int, y: int|
                r < i + 1 && 0 <= x < succ@.len() && #[trigger] covering(m, node_of@, Line::Row(r), x, y)
                    implies succ@[x]@.contains(y as usize) by {
                if r < i {
                    assert(prev[x]@.contains(y as usize));
                }
            }
            assert forall|r: usize| r < i + 1 implies #[trigger] orders_line(m, node_of@, succ@, Line::Row(r)) by {
                if r < i {
                    lemma_orders_extends(m, node_of@, prev, succ@, Line::Row(r));
                }
            }
        }
        i = i + 1;
    }
    let cols = if rows == 0 {
        0
    } else {
        matrix[0].len()
    };
    assert(cols == width(m));
    let mut j: usize = 0;
    while j < cols
        invariant
            m == grid(matrix@),
            rows == m.len(),
            cols == width(m),
            j <= cols,
            labels_cells(m, node_of@, succ@.len() as int),
            succ@.len() == count,
            simple_graph(succ@),
            edges_reasoned(m, node_of@, succ@),
            forall|r: usize| r < rows ==> #[trigger] orders_line(m, node_of@, succ@, Line::Row(r)),
            forall|c: usize| c < j ==> #[trigger] orders_line(m, node_of@, succ@, Line::Col(c)),
            edges_covering(m, node_of@, succ@),
            forall|r: usize, x: int, y: int|
                r < rows && 0 <= x < succ@.len() && #[trigger] covering(m, node_of@, Line::Row(r), x, y)
                    ==> succ@[x]@.contains(y as usize),
            forall|c: usize, x: int, y: int|
                c < j && 0 <= x < succ@.len() && #[trigger] covering(m, node_of@, Line::Col(c), x, y)
                    ==> succ@[x]@.contains(y as usize),
        decreases cols - j,
    {
        let ghost prev = succ@;
        link_line(matrix, node_of, &mut succ, Line::Col(j));
        proof {
            lemma_link_step(m, node_of@, prev, succ@, Line::Col(j));
            assert forall|r: usize, x: int, y: int|
                r < rows && 0 <= x < succ@.len() && #[trigger] covering(m, node_of@, Line::Row(r), x, y)
                    implies succ@[x]@.contains(y as usize) by {
                assert(prev[x]@.contains(y as usize));
            }
            assert forall|c: usize, x: int, y: int|
                c < j + 1 && 0 <= x < succ@.len() && #[trigger] covering(m, node_of@, Line::Col(c), x, y)
                    implies succ@[x]@.contains(y as usize) by {
                if c < j {
                    assert(prev[x]@.contains(y as usize));
                }
            }
            assert forall|r: usize| r < rows implies #[trigger] orders_line(m, node_of@, succ@, Line::Row(r)) by {
                lemma_orders_extends(m, node_of@, prev, succ@, Line::Row(r));
            }
            assert forall|c: usize| c < j + 1 implies #[trigger] orders_line(m, node_of@, succ@, Line::Col(c)) by {
                if c < j {
                    lemma_orders_extends(m, node_of@, prev, succ@, Line::Col(c));
                }
            }
        }
        j = j + 1;
    }
    assert forall|line: Line| line_in_grid(m, line) implies #[trigger] orders_line(m, node_of@, succ@, line) by {
        match line {
            Line::Row(r) => {},
            Line::Col(c) => {},
        }
    }
    assert forall|line: Line, x: int, y: int|
        line_in_grid(m, line) && 0 <= x < succ@.len() && #[trigger] covering(m, node_of@, line, x, y)
            implies succ@[x]@.contains(y as usize) by {
        match line {
            Line::Row(r) => {},
            Line::Col(c) => {},
        }
    }
    succ
}

/// Edges go from smaller to larger values, so the values of the nodes label
/// the graph without a cycle.
proof fn lemma_values_order(m: Seq<Seq<int>>, g: PrecedenceGraph)
    requires
        labels_cells(m, g.node_of@, g.nodes@.len() as int),
        g.succ@.len() == g.nodes@.len(),
        forall|a: (int, int), b: (int, int)|
            #![trigger node_at(m, g.node_of@, a), node_at(m, g.node_of@, b)]
            in_grid(m, a) && in_grid(m, b) && node_at(m, g.node_of@, a) == node_at(m, g.node_of@, b) ==> linked(
                m,
                a,
                b,
            ),
        forall|u: int| 0 <= u < g.nodes@.len() ==> #[trigger] represents(m, g.node_of@, g.nodes@[u], u),
        edges_reasoned(m, g.node_of@, g.succ@),
    ensures
        acyclic(g.succ@),
{
    let lab = Seq::new(g.nodes@.len(), |u: int| (g.nodes@[u].value - i32::MIN) as nat);
    assert forall|u: int, k: int| 0 <= u < g.succ@.len() && 0 <= k < g.succ@[u]@.len() implies lab[u] < lab[
    #[trigger] g.succ@[u]@[k] as int] by {
        let v = g.succ@[u]@[k] as int;
        assert(edge_reason(m, g.node_of@, u, v));
        let (a, b) = choose|a: (int, int), b: (int, int)|
            #![trigger node_at(m, g.node_of@, a), node_at(m, g.node_of@, b)]
            in_grid(m, a) && in_grid(m, b) && share_line(a, b) && at(m, a) < at(m, b) && node_at(
                m,
                g.node_of@,
                a,
            ) == u && node_at(m, g.node_of@, b) == v;
        assert(represents(m, g.node_of@, g.nodes@[u], u));
        assert(represents(m, g.node_of@, g.nodes@[v], v));
        let cu = (g.nodes@[u].row as int, g.nodes@[u].col as int);
        let cv = (g.nodes@[v].row as int, g.nodes@[v].col as int);
        lemma_linked_alike(m, m, a, cu);
        lemma_linked_alike(m, m, b, cv);
    }
    assert(monotone(g.succ@, lab));
}

/// Sorts the cells of `line` by value and links the node of each value to
/// the node of the next larger value, unless that edge is there already.
fn link_line(matrix: &Vec<Vec<i32>>, node_of: &Vec<usize>, succ: &mut Vec<Vec<usize>>, line: Line)
    requires
        labels_cells(grid(matrix@), node_of@, old(succ)@.len() as int),
        line_in_grid(grid(matrix@), line),
        simple_graph(old(succ)@),
        edges_reasoned(grid(matrix@), node_of@, old(succ)@),
    ensures
        simple_graph(final(succ)@),
        extends(old(succ)@, final(succ)@),
        edges_reasoned(grid(matrix@), node_of@, final(succ)@),
        orders_line(grid(matrix@), node_of@, final(succ)@, line),
        forall|u: int, k: int|
            0 <= u < final(succ)@.len() && old(succ)@[u]@.len() <= k < final(succ)@[u]@.len() ==> covering(
                grid(matrix@),
                node_of@,
                line,
                u,
                #[trigger] final(succ)@[u]@[k] as int,
            ),
        forall|u: int, v: int|
            0 <= u < final(succ)@.len() && #[trigger] covering(grid(matrix@), node_of@, line, u, v)
                ==> final(succ)@[u]@.contains(v as usize),
{
    let ghost m = grid(matrix@);
    let ghost succ0 = succ@;
    let sorted = sort_line(matrix, node_of, line, succ.len());
    let mut t: usize = 0;
    while sorted.len() > 0 && t < sorted.len() - 1
        invariant
            m == grid(matrix@),
            rectangular(m),
            line_in_grid(m, line),
            strictly_sorted(sorted@),
            forall|i: int| 0 <= i < sorted@.len() ==> #[trigger] from_line(m, node_of@, line, sorted@[i]),
            forall|q: int| 0 <= q < line_len(m, line) ==> #[trigger] covers(m, node_of@, line, sorted@, q),
            forall|i: int| 0 <= i < sorted@.len() ==> (#[trigger] sorted@[i]).1 < succ@.len(),
            t < sorted@.len() || sorted@.len() == 0,
            simple_graph(succ@),
            extends(succ0, succ@),
            edges_reasoned(m, node_of@, succ@),
            forall|u: int, k: int|
                0 <= u < succ@.len() && succ0[u]@.len() <= k < succ@[u]@.len() ==> covering(
                    m,
                    node_of@,
                    line,
                    u,
                    #[trigger] succ@[u]@[k] as int,
                ),
            forall|s: int|
                0 <= s < t ==> (#[trigger] succ@[sorted@[s].1 as int]@).contains(sorted@[s + 1].1),
        decreases sorted@.len() - t,
    {
        let (_, u) = sorted.get(t);
        let (_, v) = sorted.get(t + 1);
        let ghost before = succ@;
        proof {
            lemma_consecutive_covering(m, node_of@, line, sorted@, t as int);
            lemma_covering_reason(m, node_of@, line, u as int, v as int);
        }
        add_edge(succ, u, v);
        proof {
            assert forall|x: int, k: int|
                0 <= x < succ@.len() && 0 <= k < succ@[x]@.len() implies edge_reason(
                m,
                node_of@,
                x,
                #[trigger] succ@[x]@[k] as int,
            ) by {
                if k < before[x]@.len() {
                    assert(before[x]@[k] == succ@[x]@[k]);
                }
            }
            assert forall|x: int, k: int|
                0 <= x < succ@.len() && succ0[x]@.len() <= k < succ@[x]@.len() implies covering(
                m,
                node_of@,
                line,
                x,
                #[trigger] succ@[x]@[k] as int,
            ) by {
                if k < before[x]@.len() {
                    assert(before[x]@[k] == succ@[x]@[k]);
                }
            }
            assert forall|s: int| 0 <= s < t + 1 implies (#[trigger] succ@[sorted@[s].1 as int]@).contains(
                sorted@[s + 1].1,
            ) by {
                if s < t {
                    let x = sorted@[s].1 as int;
                    assert(before[x]@.contains(sorted@[s + 1].1));
                    let k = choose|k: int| 0 <= k < before[x]@.len() && before[x]@[k] == sorted@[s + 1].1;
                    assert(succ@[x]@[k] == sorted@[s + 1].1);
                }
            }
            assert forall|x: int| 0 <= x < succ0.len() implies (#[trigger] succ0[x]@).is_prefix_of(
                succ@[x]@,
            ) by {
                assert(succ0[x]@.is_prefix_of(before[x]@));
                assert(before[x]@.len() <= succ@[x]@.len());
                assert forall|k: int| 0 <= k < succ0[x]@.len() implies succ0[x]@[k] == succ@[x]@[k] by {
                    assert(before[x]@.subrange(0, succ0[x]@.len() as int)[k] == before[x]@[k]);
                    assert(succ@[x]@[k] == before[x]@[k]);
                }
                assert(succ0[x]@ =~= succ@[x]@.subrange(0, succ0[x]@.len() as int));
            }
            assert(extends(succ0, succ@));
        }
        t = t + 1;
    }
    proof {
        lemma_line_ordered(m, node_of@, succ@, line, sorted@);
        assert forall|u: int, v: int|
            0 <= u < succ@.len() && #[trigger] covering(m, node_of@, line, u, v) implies succ@[u]@.contains(
            v as usize,
        ) by {
            lemma_covering_consecutive(m, node_of@, line, sorted@, u, v);
            let t = choose|t: int|
                0 <= t < sorted@.len() - 1 && sorted@[t].1 == u && #[trigger] sorted@[t + 1].1 == v;
            assert(succ@[sorted@[t].1 as int]@.contains(sorted@[t + 1].1));
        }
    }
}

/// The value and the node of every cell of `line`, each pair once, in
/// increasing order of value; equal values on a line share their node, so
/// the values strictly increase.
fn sort_line(matrix: &Vec<Vec<i32>>, node_of: &Vec<usize>, line: Line, count: usize) -> (sorted: OrderedVec)
    requires
        labels_cells(grid(matrix@), node_of@, count as int),
        line_in_grid(grid(matrix@), line),
    ensures
        sorted.wf(),
        strictly_sorted(sorted@),
        forall|i: int| 0 <= i < sorted@.len() ==> #[trigger] from_line(grid(matrix@), node_of@, line, sorted@[i]),
        forall|i: int| 0 <= i < sorted@.len() ==> (#[trigger] sorted@[i]).1 < count,
        forall|q: int|
            0 <= q < line_len(grid(matrix@), line) ==> #[trigger] covers(grid(matrix@), node_of@, line, sorted@, q),
{
    let ghost m = grid(matrix@);
    let rows = matrix.len();
    let cols = matrix[0].len();
    assert(m[0].len() == cols);
    let len = match line {
        Line::Row(_) => cols,
        Line::Col(_) => rows,
    };
    assert(node_of@.len() == node_of.len());
    let mut sorted = OrderedVec::new();
    let mut p: usize = 0;
    while p < len
        invariant
            m == grid(matrix@),
            labels_cells(m, node_of@, count as int),
            node_of@.len() <= usize::MAX,
            line_in_grid(m, line),
            rows == m.len(),
            cols == width(m),
            len == line_len(m, line),
            sorted.wf(),
            p <= len,
            forall|i: int| 0 <= i < sorted@.len() ==> #[trigger] from_line(m, node_of@, line, sorted@[i]),
            forall|i: int| 0 <= i < sorted@.len() ==> (#[trigger] sorted@[i]).1 < count,
            forall|q: int| 0 <= q < p ==> #[trigger] covers(m, node_of@, line, sorted@, q),
        decreases len - p,
    {
        let (i, j) = match line {
            Line::Row(i) => (i, p),
            Line::Col(j) => (p, j),
        };
        let ghost c = line_cell(line, p as int);
        assert((i as int, j as int) == c);
        assert(m[i as int].len() == cols);
        proof {
            lemma_flat_bound(m, c);
        }
        let e = (matrix[i][j], node_of[i * cols + j]);
        assert(e.1 as int == node_at(m, node_of@, c));
        assert(from_line(m, node_of@, line, e));
        let ghost before = sorted@;
        sorted.insert(e);
        assert forall|i: int| 0 <= i < sorted@.len() implies #[trigger] from_line(m, node_of@, line, sorted@[i])
            && sorted@[i].1 < count by {
            if sorted@[i] != e {
                assert(before.contains(sorted@[i]));
                let k = choose|k: int| 0 <= k < before.len() && before[k] == sorted@[i];
                assert(from_line(m, node_of@, line, before[k]));
            }
        }
        assert forall|q: int| 0 <= q < p + 1 implies #[trigger] covers(m, node_of@, line, sorted@, q) by {
            if q < p {
                assert(covers(m, node_of@, line, before, q));
                let t0 = choose|t: int|
                    0 <= t < before.len() && (#[trigger] before[t]).0 as int == at(m, line_cell(line, q))
                        && before[t].1 as int == node_at(m, node_of@, line_cell(line, q));
                assert(sorted@.contains(before[t0]));
                let t1 = choose|t: int| 0 <= t < sorted@.len() && sorted@[t] == before[t0];
                assert(sorted@[t1] == before[t0]);
            } else {
                let t1 = choose|t: int| 0 <= t < sorted@.len() && sorted@[t] == e;
                assert(sorted@[t1] == e);
            }
        }
        p = p + 1;
    }
    proof {
        lemma_strict(m, node_of@, line, sorted@, count as int);
    }
    sorted
}

/// Entries of one line that hold equal values hold one node, so a sorted
/// list of them without repeats strictly increases.
proof fn lemma_strict(m: Seq<Seq<int>>, node_of: Seq<usize>, line: Line, s: Seq<(i32, usize)>, count: int)
    requires
        labels_cells(m, node_of, count),
        line_in_grid(m, line),
        crate::ordered::sorted_by_value(s),
        s.no_duplicates(),
        forall|i: int| 0 <= i < s.len() ==> #[trigger] from_line(m, node_of, line, s[i]),
    ensures
        strictly_sorted(s),
{
    assert forall|a: int, b: int| 0 <= a < b < s.len() implies (#[trigger] s[a]).0 < (#[trigger] s[b]).0 by {
        if s[a].0 == s[b].0 {
            assert(from_line(m, node_of, line, s[a]));
            assert(from_line(m, node_of, line, s[b]));
            let p = choose|q: int|
                0 <= q < line_len(m, line) && s[a].0 as int == at(m, #[trigger] line_cell(line, q))
                    && s[a].1 as int == node_at(m, node_of, line_cell(line, q));
            let q = choose|q: int|
                0 <= q < line_len(m, line) && s[b].0 as int == at(m, #[trigger] line_cell(line, q))
                    && s[b].1 as int == node_at(m, node_of, line_cell(line, q));
            let cp = line_cell(line, p);
            let cq = line_cell(line, q);
            match line {
                Line::Row(i) => {
                    assert(m[i as int].len() == width(m));
                },
                Line::Col(j) => {
                    assert(m[p].len() == width(m));
                    assert(m[q].len() == width(m));
                },
            }
            assert(tied(m, cp, cq));
            assert(node_at(m, node_of, cp) == node_at(m, node_of, cq));
            assert(s[a] == s[b]);
        }
    }
}

/// Adds the edge `u -> v` unless it is there already.
fn add_edge(succ: &mut Vec<Vec<usize>>, u: usize, v: usize)
    requires
        simple_graph(old(succ)@),
        u < old(succ)@.len(),
        v < old(succ)@.len(),
    ensures
        simple_graph(final(succ)@),
        final(succ)@.len() == old(succ)@.len(),
        final(succ)@[u as int]@.contains(v),
        forall|x: int, k: int|
            0 <= x < final(succ)@.len() && 0 <= k < final(succ)@[x]@.len() ==> if k < old(succ)@[x]@.len() {
                old(succ)@[x]@[k] == #[trigger] final(succ)@[x]@[k]
            } else {
                x == u && final(succ)@[x]@[k] == v
            },
        forall|x: int| 0 <= x < old(succ)@.len() ==> old(succ)@[x]@.len() <= (#[trigger] final(succ)@[x])@.len(),
{
    if !has_target(&succ[u], v) {
        let ghost before = succ@;
        succ[u].push(v);
        assert(succ@[u as int]@ == before[u as int]@.push(v));
        assert(succ@[u as int]@[before[u as int]@.len() as int] == v);
        assert forall|x: int| 0 <= x < succ@.len() implies (#[trigger] succ@[x]@).no_duplicates() by {
            if x == u {
                assert(before[x]@.no_duplicates());
            } else {
                assert(succ@[x] == before[x]);
            }
        }
    }
}

fn has_target(list: &Vec<usize>, v: usize) -> (r: bool)
    ensures
        r == list@.contains(v),
{
    let mut i: usize = 0;
    while i < list.len()
        invariant
            i <= list@.len(),
            forall|t: int| 0 <= t < i ==> list@[t] != v,
        decreases list@.len() - i,
    {
        if list[i] == v {
            assert(list@[i as int] == v);
            return true;
        }
        i = i + 1;
    }
    false
}

} // verus!

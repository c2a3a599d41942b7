use vstd::prelude::*;
use crate::graph::{acyclic, is_leveling, leveled_at, monotone, simple_graph, PrecedenceGraph};
use crate::grid::{
    at, grid, in_grid, least_ranking, lemma_linked_alike, lemma_linked_sym, lemma_linked_trans,
    lemma_tied_linked, is_chain, linked, rectangular, same_shape, share_line, tied,
    valid_ranking, width,
};
use crate::leveling::{level_graph, RankError};
use crate::precedence::{
    describes, edge_reason, flat, groups_of, lemma_flat_bound, line_cell, line_in_grid, node_at,
    orders_line, Line,
};
use crate::union_find::{merged, UnionFind};

verus! {

/// The entry points of the rank transform.
pub struct Solution;

/// Cells with one representative in `rep` are linked.
pub open spec fn rep_sound(m: Seq<Seq<int>>, rep: Seq<usize>) -> bool {
    forall|a: (int, int), b: (int, int)|
        #![trigger rep[flat(width(m), a)], rep[flat(width(m), b)]]
        in_grid(m, a) && in_grid(m, b) && rep[flat(width(m), a)] == rep[flat(width(m), b)] ==> linked(
            m,
            a,
            b,
        )
}

/// Tied cells have one representative in `rep`.
pub open spec fn rep_joins(m: Seq<Seq<int>>, rep: Seq<usize>, a: (int, int), b: (int, int)) -> bool {
    tied(m, a, b) ==> rep[flat(width(m), a)] == rep[flat(width(m), b)]
}

/// Merging the groups of two tied cells keeps every group linked.
proof fn lemma_merge_tied(m: Seq<Seq<int>>, rep: Seq<usize>, a: (int, int), b: (int, int))
    requires
        rectangular(m),
        rep.len() == m.len() * width(m),
        rep_sound(m, rep),
        tied(m, a, b),
    ensures
        rep_sound(m, merged(rep, flat(width(m), a), flat(width(m), b))),
        forall|x: int, y: int|
            0 <= x < rep.len() && 0 <= y < rep.len() && rep[x] == rep[y] ==> #[trigger] merged(
                rep,
                flat(width(m), a),
                flat(width(m), b),
            )[x] == #[trigger] merged(rep, flat(width(m), a), flat(width(m), b))[y],
        merged(rep, flat(width(m), a), flat(width(m), b))[flat(width(m), a)] == merged(
            rep,
            flat(width(m), a),
            flat(width(m), b),
        )[flat(width(m), b)],
{
    let w = width(m);
    let fa = flat(w, a);
    let fb = flat(w, b);
    let rep2 = merged(rep, fa, fb);
    lemma_flat_bound(m, a);
    lemma_flat_bound(m, b);
    lemma_tied_linked(m, a, b);
    assert forall|x: (int, int), y: (int, int)|
        #![trigger rep2[flat(w, x)], rep2[flat(w, y)]]
        in_grid(m, x) && in_grid(m, y) && rep2[flat(w, x)] == rep2[flat(w, y)] implies linked(m, x, y) by {
        lemma_flat_bound(m, x);
        lemma_flat_bound(m, y);
        let fx = flat(w, x);
        let fy = flat(w, y);
        let in_a_x = rep[fx] == rep[fa];
        let in_a_y = rep[fy] == rep[fa];
        if in_a_x && in_a_y {
            assert(rep[fx] == rep[fy]);
        } else if in_a_x {
            // x is with a, y is with b
            assert(rep[fy] == rep[fb]);
            assert(linked(m, x, a));
            assert(linked(m, y, b));
            lemma_linked_sym(m, y, b);
            lemma_linked_trans(m, x, a, b);
            lemma_linked_trans(m, x, b, y);
        } else if in_a_y {
            assert(rep[fx] == rep[fb]);
            assert(linked(m, y, a));
            assert(linked(m, x, b));
            lemma_linked_sym(m, x, b);
            lemma_linked_sym(m, a, b);
            lemma_linked_trans(m, y, a, b);
            lemma_linked_trans(m, y, b, x);
            lemma_linked_sym(m, y, x);
        } else {
            assert(rep[fx] == rep[fy]);
        }
    }
}

/// Along a chain of tied cells the representative stays the same.
proof fn lemma_chain_rep(m: Seq<Seq<int>>, rep: Seq<usize>, p: Seq<(int, int)>, k: int)
    requires
        forall|a: (int, int), b: (int, int)| #[trigger] rep_joins(m, rep, a, b),
        is_chain(m, p),
        0 <= k < p.len(),
    ensures
        rep[flat(width(m), p[0])] == rep[flat(width(m), p[k])],
    decreases k,
{
    if k > 0 {
        lemma_chain_rep(m, rep, p, k - 1);
        assert(tied(m, p[k - 1], p[k]));
        assert(rep_joins(m, rep, p[k - 1], p[k]));
    }
}

impl Solution {
    /// The groups of `matrix`: cells joined through chains of equal values
    /// that share a row or a column, as a union-find over the cells in
    /// row-major order.
    pub fn union_find(matrix: &Vec<Vec<i32>>) -> (uf: UnionFind)
        requires
            rectangular(grid(matrix@)),
            matrix@.len() * width(grid(matrix@)) <= usize::MAX,
        ensures
            uf.wf(),
            groups_of(grid(matrix@), uf@),
    {
        let ghost m = grid(matrix@);
        let rows = matrix.len();
        let cols = if rows == 0 {
            0
        } else {
            matrix[0].len()
        };
        assert(cols == width(m));
        let mut uf = UnionFind::new(rows * cols);
        assert forall|a: (int, int), b: (int, int)|
            #![trigger uf@[flat(width(m), a)], uf@[flat(width(m), b)]]
            in_grid(m, a) && in_grid(m, b) && uf@[flat(width(m), a)] == uf@[flat(width(m), b)] implies linked(
            m,
            a,
            b,
        ) by {
            lemma_flat_bound(m, a);
            lemma_flat_bound(m, b);
            assert(flat(width(m), a) == flat(width(m), b));
            assert(a.0 * width(m) + a.1 == b.0 * width(m) + b.1);
            assert(a == b) by (nonlinear_arith)
                requires
                    a.0 * width(m) + a.1 == b.0 * width(m) + b.1,
                    0 <= a.1 < width(m),
                    0 <= b.1 < width(m),
                    0 <= a.0,
                    0 <= b.0,
            ;
            crate::grid::lemma_linked_refl(m, a);
        }
        let mut i: usize = 0;
        while i < rows
            invariant
                m == grid(matrix@),
                rectangular(m),
                rows == m.len(),
                cols == width(m),
                i <= rows,
                uf.wf(),
                uf@.len() == rows * cols,
                rows * cols <= usize::MAX,
                rep_sound(m, uf@),
                forall|a: (int, int), b: (int, int)|
                    a.0 < i ==> #[trigger] rep_joins(m, uf@, a, b),
            decreases rows - i,
        {
            let mut j: usize = 0;
            while j < cols
                invariant
                    m == grid(matrix@),
                    rectangular(m),
                    rows == m.len(),
                    cols == width(m),
                    i < rows,
                    j <= cols,
                    uf.wf(),
                    uf@.len() == rows * cols,
                    rows * cols <= usize::MAX,
                    rep_sound(m, uf@),
                    forall|a: (int, int), b: (int, int)|
                        a.0 < i || (a.0 == i && a.1 < j) ==> #[trigger] rep_joins(m, uf@, a, b),
                decreases cols - j,
            {
                join_cell(matrix, &mut uf, i, j);
                j = j + 1;
            }
            i = i + 1;
        }
        proof {
            uf.lemma_partition();
            assert forall|a: (int, int), b: (int, int)|
                #![trigger uf@[flat(width(m), a)], uf@[flat(width(m), b)]]
                in_grid(m, a) && in_grid(m, b) && linked(m, a, b) implies uf@[flat(width(m), a)]
                == uf@[flat(width(m), b)] by {
                let p = choose|p: Seq<(int, int)>| #[trigger] is_chain(m, p) && p[0] == a && p.last() == b;
                lemma_chain_rep(m, uf@, p, p.len() - 1);
            }
        }
        uf
    }
}

/// Joins cell `(i, j)` with every tied cell of its column and of its row.
fn join_cell(matrix: &Vec<Vec<i32>>, uf: &mut UnionFind, i: usize, j: usize)
    requires
        rectangular(grid(matrix@)),
        i < matrix@.len(),
        j < width(grid(matrix@)),
        old(uf).wf(),
        old(uf)@.len() == matrix@.len() * width(grid(matrix@)),
        matrix@.len() * width(grid(matrix@)) <= usize::MAX,
        rep_sound(grid(matrix@), old(uf)@),
        forall|a: (int, int), b: (int, int)|
            a.0 < i || (a.0 == i && a.1 < j) ==> #[trigger] rep_joins(grid(matrix@), old(uf)@, a, b),
    ensures
        final(uf).wf(),
        final(uf)@.len() == old(uf)@.len(),
        rep_sound(grid(matrix@), final(uf)@),
        forall|a: (int, int), b: (int, int)|
            a.0 < i || (a.0 == i && a.1 <= j) ==> #[trigger] rep_joins(grid(matrix@), final(uf)@, a, b),
{
    let ghost m = grid(matrix@);
    let ghost rep0 = uf@;
    let rows = matrix.len();
    let cols = matrix[0].len();
    assert(m[0].len() == cols && m[i as int].len() == cols);
    let value = matrix[i][j];
    let ghost a = (i as int, j as int);
    let mut k: usize = 0;
    while k < rows
        invariant
            m == grid(matrix@),
            rectangular(m),
            rows == m.len(),
            cols == width(m),
            i < rows,
            j < cols,
            a == (i as int, j as int),
            value as int == at(m, a),
            k <= rows,
            uf.wf(),
            uf@.len() == rows * cols,
            rows * cols <= usize::MAX,
            rep0.len() == rows * cols,
            rep_sound(m, uf@),
            forall|x: int, y: int|
                0 <= x < uf@.len() && 0 <= y < uf@.len() && rep0[x] == rep0[y] ==> #[trigger] uf@[x]
                    == #[trigger] uf@[y],
            forall|q: int| 0 <= q < k ==> #[trigger] rep_joins(m, uf@, a, (q, j as int)),
        decreases rows - k,
    {
        assert(m[k as int].len() == cols);
        if value == matrix[k][j] {
            let ghost b = (k as int, j as int);
            proof {
                lemma_flat_bound(m, a);
                lemma_flat_bound(m, b);
                lemma_merge_tied(m, uf@, a, b);
            }
            let ghost before = uf@;
            uf.union(i * cols + j, k * cols + j);
            assert forall|q: int| 0 <= q < k + 1 implies #[trigger] rep_joins(m, uf@, a, (q, j as int)) by {
                if q < k && tied(m, a, (q, j as int)) {
                    lemma_flat_bound(m, (q, j as int));
                    assert(rep_joins(m, before, a, (q, j as int)));
                }
            }
        }
        k = k + 1;
    }
    let mut k: usize = 0;
    while k < cols
        invariant
            m == grid(matrix@),
            rectangular(m),
            rows == m.len(),
            cols == width(m),
            i < rows,
            j < cols,
            a == (i as int, j as int),
            value as int == at(m, a),
            k <= cols,
            uf.wf(),
            uf@.len() == rows * cols,
            rows * cols <= usize::MAX,
            rep0.len() == rows * cols,
            rep_sound(m, uf@),
            forall|x: int, y: int|
                0 <= x < uf@.len() && 0 <= y < uf@.len() && rep0[x] == rep0[y] ==> #[trigger] uf@[x]
                    == #[trigger] uf@[y],
            forall|q: int| 0 <= q < rows ==> #[trigger] rep_joins(m, uf@, a, (q, j as int)),
            forall|q: int| 0 <= q < k ==> #[trigger] rep_joins(m, uf@, a, (i as int, q)),
        decreases cols - k,
    {
        if value == matrix[i][k] {
            let ghost b = (i as int, k as int);
            proof {
                lemma_flat_bound(m, a);
                lemma_flat_bound(m, b);
                lemma_merge_tied(m, uf@, a, b);
            }
            let ghost before = uf@;
            uf.union(i * cols + j, i * cols + k);
            assert forall|q: int| 0 <= q < rows implies #[trigger] rep_joins(m, uf@, a, (q, j as int)) by {
                if tied(m, a, (q, j as int)) {
                    lemma_flat_bound(m, (q, j as int));
                    assert(rep_joins(m, before, a, (q, j as int)));
                }
            }
            assert forall|q: int| 0 <= q < k + 1 implies #[trigger] rep_joins(m, uf@, a, (i as int, q)) by {
                if q < k && tied(m, a, (i as int, q)) {
                    lemma_flat_bound(m, (i as int, q));
                    assert(rep_joins(m, before, a, (i as int, q)));
                }
            }
        }
        k = k + 1;
    }
    proof {
        assert forall|c: (int, int), d: (int, int)|
            c.0 < i || (c.0 == i && c.1 <= j) implies #[trigger] rep_joins(m, uf@, c, d) by {
            if tied(m, c, d) {
                lemma_flat_bound(m, c);
                lemma_flat_bound(m, d);
                if c == a {
                    if d.0 == a.0 {
                        assert(rep_joins(m, uf@, a, (i as int, d.1)));
                    } else {
                        assert(rep_joins(m, uf@, a, (d.0, j as int)));
                    }
                } else {
                    assert(rep_joins(m, rep0, c, d));
                }
            }
        }
    }
}

impl Solution {
    /// Ranks the nodes of the precedence graph: each node gets the number of
    /// nodes on a longest path of edges that ends there.
    pub fn rank_groups(graph: &PrecedenceGraph) -> (res: Result<Vec<usize>, RankError>)
        requires
            simple_graph(graph.succ@),
            graph.succ@.len() < usize::MAX,
        ensures
            res is Ok <==> acyclic(graph.succ@),
            res matches Ok(r) ==> is_leveling(graph.succ@, r@),
            res matches Ok(r) ==> forall|v: int| 0 <= v < r@.len() ==> #[trigger] r@[v] <= graph.succ@.len(),
    {
        level_graph(&graph.succ, 0)
    }

    /// Replaces every entry of `matrix` by its rank: the least ranking in
    /// which, on every row and every column, equal values share a rank and a
    /// smaller value has a smaller rank.
    pub fn matrix_rank_transform(matrix: Vec<Vec<i32>>) -> (ranked: Vec<Vec<i32>>)
        requires
            rectangular(grid(matrix@)),
            matrix@.len() * width(grid(matrix@)) <= i32::MAX,
        ensures
            least_ranking(grid(matrix@), grid(ranked@)),
            forall|a: (int, int), b: (int, int)|
                #![trigger at(grid(ranked@), a), at(grid(ranked@), b)]
                in_grid(grid(matrix@), a) && in_grid(grid(matrix@), b) && share_line(a, b) ==> {
                    &&& at(grid(matrix@), a) == at(grid(matrix@), b) ==> at(grid(ranked@), a) == at(
                        grid(ranked@),
                        b,
                    )
                    &&& at(grid(matrix@), a) < at(grid(matrix@), b) ==> at(grid(ranked@), a) < at(
                        grid(ranked@),
                        b,
                    )
                },
            matrix@.len() > 0 && width(grid(matrix@)) > 0 ==> exists|c: (int, int)|
                in_grid(grid(matrix@), c) && #[trigger] at(grid(ranked@), c) == 1,
    {
        let ghost m = grid(matrix@);
        let mut uf = Self::union_find(&matrix);
        let graph = Self::force_graph(&matrix, &mut uf);
        let ranking = match Self::rank_groups(&graph) {
            Ok(r) => r,
            Err(_) => {
                proof {
                    assert(false);
                }
                return matrix;
            },
        };
        let mut matrix = matrix;
        let rows = matrix.len();
        let cols = if rows == 0 {
            0
        } else {
            matrix[0].len()
        };
        assert(cols == width(m));
        assert forall|r: int| 0 <= r < rows implies (#[trigger] matrix@[r])@.len() == cols by {
            assert(m[r].len() == cols);
        }
        let mut i: usize = 0;
        while i < rows
            invariant
                describes(m, graph),
                is_leveling(graph.succ@, ranking@),
                forall|v: int| 0 <= v < ranking@.len() ==> #[trigger] ranking@[v] <= graph.succ@.len(),
                rows == m.len(),
                cols == width(m),
                rows * cols <= i32::MAX,
                i <= rows,
                matrix@.len() == rows,
                forall|r: int| 0 <= r < rows ==> (#[trigger] matrix@[r])@.len() == cols,
                forall|c: (int, int)|
                    in_grid(m, c) ==> #[trigger] grid(matrix@)[c.0][c.1] == if c.0 < i {
                        ranking@[node_at(m, graph.node_of@, c)] as int
                    } else {
                        at(m, c)
                    },
            decreases rows - i,
        {
            let mut j: usize = 0;
            while j < cols
                invariant
                    describes(m, graph),
                    is_leveling(graph.succ@, ranking@),
                    forall|v: int| 0 <= v < ranking@.len() ==> #[trigger] ranking@[v] <= graph.succ@.len(),
                    rows == m.len(),
                    cols == width(m),
                    rows * cols <= i32::MAX,
                    i < rows,
                    j <= cols,
                    matrix@.len() == rows,
                    forall|r: int| 0 <= r < rows ==> (#[trigger] matrix@[r])@.len() == cols,
                    forall|c: (int, int)|
                        in_grid(m, c) ==> #[trigger] grid(matrix@)[c.0][c.1] == if c.0 < i || (c.0 == i
                            && c.1 < j) {
                            ranking@[node_at(m, graph.node_of@, c)] as int
                        } else {
                            at(m, c)
                        },
                decreases cols - j,
            {
                let ghost c = (i as int, j as int);
                proof {
                    lemma_flat_bound(m, c);
                }
                let v = graph.node_of[i * cols + j];
                assert(v == node_at(m, graph.node_of@, c));
                let rank = ranking[v];
                assert(rank <= i32::MAX);
                let ghost before = matrix@;
                matrix[i].set(j, rank as i32);
                assert forall|d: (int, int)| in_grid(m, d) implies #[trigger] grid(matrix@)[d.0][d.1]
                    == if d.0 < i || (d.0 == i && d.1 < j + 1) {
                    ranking@[node_at(m, graph.node_of@, d)] as int
                } else {
                    at(m, d)
                } by {
                    if d != c {
                        assert(grid(before)[d.0][d.1] == grid(matrix@)[d.0][d.1]);
                    }
                }
                j = j + 1;
            }
            i = i + 1;
        }
        proof {
            lemma_least(m, graph, ranking@, grid(matrix@));
            if rows > 0 && cols > 0 {
                crate::grid::lemma_least_uses_one(m, grid(matrix@), (0, 0));
            }
        }
        matrix
    }
}

/// The precedence graph's leveling, read back on the cells, is the least
/// ranking of the matrix.
proof fn lemma_least(m: Seq<Seq<int>>, g: PrecedenceGraph, rank: Seq<usize>, r: Seq<Seq<int>>)
    requires
        m.len() <= usize::MAX,
        width(m) <= usize::MAX,
        describes(m, g),
        is_leveling(g.succ@, rank),
        same_shape(m, r),
        forall|c: (int, int)| in_grid(m, c) ==> #[trigger] r[c.0][c.1] == rank[node_at(m, g.node_of@, c)] as int,
    ensures
        least_ranking(m, r),
{
    let node_of = g.node_of@;
    let succ = g.succ@;
    let lab = rank.map_values(|x: usize| x as nat);
    assert(monotone(succ, lab));
    assert forall|c: (int, int)| in_grid(m, c) implies #[trigger] at(r, c) >= 1 by {
        assert(node_at(m, node_of, c) < rank.len());
    }
    assert forall|a: (int, int), b: (int, int)|
        #![trigger at(r, a), at(r, b)]
        in_grid(m, a) && in_grid(m, b) && share_line(a, b) implies crate::grid::ordered_alike(
        at(m, a),
        at(m, b),
        at(r, a),
        at(r, b),
    ) by {
        assert(at(r, a) == rank[node_at(m, node_of, a)] as int);
        assert(at(r, b) == rank[node_at(m, node_of, b)] as int);
        if at(m, a) == at(m, b) {
            assert(tied(m, a, b));
        }
        if at(m, a) < at(m, b) {
            let line = if a.0 == b.0 {
                Line::Row(a.0 as usize)
            } else {
                Line::Col(a.1 as usize)
            };
            let (p, q) = if a.0 == b.0 {
                (a.1, b.1)
            } else {
                (a.0, b.0)
            };
            assert(line_cell(line, p) == a);
            assert(line_cell(line, q) == b);
            assert(line_in_grid(m, line));
            assert(orders_line(m, node_of, succ, line));
            assert(lab[node_at(m, node_of, line_cell(line, p))] < lab[node_at(m, node_of, line_cell(line, q))]);
        }
    }
    assert(valid_ranking(m, r));
    assert forall|r2: Seq<Seq<int>>| #[trigger] valid_ranking(m, r2) implies forall|c: (int, int)|
        in_grid(m, c) ==> #[trigger] at(r, c) <= at(r2, c) by {
        assert forall|c: (int, int)| in_grid(m, c) implies #[trigger] at(r, c) <= at(r2, c) by {
            let k = rank[node_at(m, node_of, c)] as nat;
            lemma_below(m, g, rank, r2, k);
        }
    }
}

/// A cell whose node has rank `k` is ranked at least `k` by every ranking.
proof fn lemma_below(m: Seq<Seq<int>>, g: PrecedenceGraph, rank: Seq<usize>, r2: Seq<Seq<int>>, k: nat)
    requires
        describes(m, g),
        is_leveling(g.succ@, rank),
        valid_ranking(m, r2),
    ensures
        forall|c: (int, int)|
            in_grid(m, c) && rank[node_at(m, g.node_of@, c)] == k ==> k <= #[trigger] at(r2, c),
    decreases k,
{
    let node_of = g.node_of@;
    let succ = g.succ@;
    assert forall|c: (int, int)| in_grid(m, c) && rank[node_at(m, node_of, c)] == k implies k <= #[trigger] at(
        r2,
        c,
    ) by {
        let v = node_at(m, node_of, c);
        if k > 1 {
            assert(leveled_at(succ, rank, v));
            let (u, i) = choose|u: int, i: int|
                0 <= u < succ.len() && 0 <= i < succ[u]@.len() && #[trigger] succ[u]@[i] == v && rank[u] + 1
                    == rank[v];
            assert(edge_reason(m, node_of, u, succ[u]@[i] as int));
            let (d, e) = choose|d: (int, int), e: (int, int)|
                #![trigger node_at(m, node_of, d), node_at(m, node_of, e)]
                in_grid(m, d) && in_grid(m, e) && share_line(d, e) && at(m, d) < at(m, e) && node_at(
                    m,
                    node_of,
                    d,
                ) == u && node_at(m, node_of, e) == v;
            lemma_below(m, g, rank, r2, (k - 1) as nat);
            assert(k - 1 <= at(r2, d));
            assert(at(r2, d) < at(r2, e));
            assert(linked(m, e, c));
            lemma_linked_alike(m, r2, e, c);
        }
    }
}

} // verus!

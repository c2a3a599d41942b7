use vstd::prelude::*;

verus! {

/// The matrix as rows of mathematical integers.
pub open spec fn grid(m: Seq<Vec<i32>>) -> Seq<Seq<int>> {
    Seq::new(m.len(), |i: int| Seq::new(m[i]@.len(), |j: int| m[i]@[j] as int))
}

/// Every row has as many entries as the first.
pub open spec fn rectangular<T>(m: Seq<Seq<T>>) -> bool {
    forall|i: int| 0 <= i < m.len() ==> (#[trigger] m[i]).len() == m[0].len()
}

/// The number of columns of a rectangular matrix.
pub open spec fn width<T>(m: Seq<Seq<T>>) -> int {
    if m.len() == 0 {
        0
    } else {
        m[0].len() as int
    }
}

pub open spec fn in_grid<T>(m: Seq<Seq<T>>, c: (int, int)) -> bool {
    0 <= c.0 < m.len() && 0 <= c.1 < m[c.0].len()
}

pub open spec fn at(m: Seq<Seq<int>>, c: (int, int)) -> int {
    m[c.0][c.1]
}

/// The two cells lie in one row or in one column.
pub open spec fn share_line(a: (int, int), b: (int, int)) -> bool {
    a.0 == b.0 || a.1 == b.1
}

/// Two cells that share a line and hold equal values.
pub open spec fn tied(m: Seq<Seq<int>>, a: (int, int), b: (int, int)) -> bool {
    &&& in_grid(m, a)
    &&& in_grid(m, b)
    &&& share_line(a, b)
    &&& at(m, a) == at(m, b)
}

/// `p` walks through cells of `m`, each step between two tied cells.
pub open spec fn is_chain(m: Seq<Seq<int>>, p: Seq<(int, int)>) -> bool {
    &&& p.len() > 0
    &&& forall|k: int| 0 <= k < p.len() ==> in_grid(m, #[trigger] p[k])
    &&& forall|k: int| 0 <= k < p.len() - 1 ==> tied(m, #[trigger] p[k], p[k + 1])
}

/// `a` and `b` belong to one group: a chain of tied cells joins them.
pub open spec fn linked(m: Seq<Seq<int>>, a: (int, int), b: (int, int)) -> bool {
    exists|p: Seq<(int, int)>| #[trigger] is_chain(m, p) && p[0] == a && p.last() == b
}

/// Ranks `rx`, `ry` of two values `x`, `y` on one line keep their order.
pub open spec fn ordered_alike(x: int, y: int, rx: int, ry: int) -> bool {
    &&& x == y ==> rx == ry
    &&& x < y ==> rx < ry
}

/// `r` has the shape of `m`.
pub open spec fn same_shape(m: Seq<Seq<int>>, r: Seq<Seq<int>>) -> bool {
    &&& r.len() == m.len()
    &&& forall|i: int| 0 <= i < m.len() ==> (#[trigger] r[i]).len() == m[i].len()
}

/// `r` ranks `m`: ranks are positive, and on every row and every column equal
/// values get equal ranks and a smaller value a smaller rank.
pub open spec fn valid_ranking(m: Seq<Seq<int>>, r: Seq<Seq<int>>) -> bool {
    &&& same_shape(m, r)
    &&& forall|c: (int, int)| in_grid(m, c) ==> #[trigger] at(r, c) >= 1
    &&& forall|a: (int, int), b: (int, int)|
        #![trigger at(r, a), at(r, b)]
        in_grid(m, a) && in_grid(m, b) && share_line(a, b) ==> ordered_alike(
            at(m, a),
            at(m, b),
            at(r, a),
            at(r, b),
        )
}

/// `r` is a ranking of `m` that no other ranking undercuts anywhere.
pub open spec fn least_ranking(m: Seq<Seq<int>>, r: Seq<Seq<int>>) -> bool {
    &&& valid_ranking(m, r)
    &&& forall|r2: Seq<Seq<int>>|
        #[trigger] valid_ranking(m, r2) ==> forall|c: (int, int)|
            in_grid(m, c) ==> #[trigger] at(r, c) <= at(r2, c)
}

pub proof fn lemma_tied_linked(m: Seq<Seq<int>>, a: (int, int), b: (int, int))
    requires
        tied(m, a, b),
    ensures
        linked(m, a, b),
{
    let p = seq![a, b];
    assert(is_chain(m, p));
}

pub proof fn lemma_linked_refl(m: Seq<Seq<int>>, a: (int, int))
    requires
        in_grid(m, a),
    ensures
        linked(m, a, a),
{
    let p = seq![a];
    assert(is_chain(m, p));
}

pub proof fn lemma_linked_sym(m: Seq<Seq<int>>, a: (int, int), b: (int, int))
    requires
        linked(m, a, b),
    ensures
        linked(m, b, a),
{
    let p = choose|p: Seq<(int, int)>| #[trigger] is_chain(m, p) && p[0] == a && p.last() == b;
    let q = p.reverse();
    assert forall|k: int| 0 <= k < q.len() - 1 implies tied(m, #[trigger] q[k], q[k + 1]) by {
        let t = p.len() - 2 - k;
        assert(tied(m, p[t], p[t + 1]));
    }
    assert forall|k: int| 0 <= k < q.len() implies in_grid(m, #[trigger] q[k]) by {
        assert(in_grid(m, p[p.len() - 1 - k]));
    }
    assert(is_chain(m, q));
}

pub proof fn lemma_linked_trans(m: Seq<Seq<int>>, a: (int, int), b: (int, int), c: (int, int))
    requires
        linked(m, a, b),
        linked(m, b, c),
    ensures
        linked(m, a, c),
{
    let p = choose|p: Seq<(int, int)>| #[trigger] is_chain(m, p) && p[0] == a && p.last() == b;
    let q = choose|q: Seq<(int, int)>| #[trigger] is_chain(m, q) && q[0] == b && q.last() == c;
    let s = p + q.skip(1);
    assert forall|k: int| 0 <= k < s.len() implies in_grid(m, #[trigger] s[k]) by {
        if k < p.len() {
            assert(in_grid(m, p[k]));
        } else {
            assert(in_grid(m, q[k - p.len() + 1]));
        }
    }
    assert forall|k: int| 0 <= k < s.len() - 1 implies tied(m, #[trigger] s[k], s[k + 1]) by {
        if k < p.len() - 1 {
            assert(tied(m, p[k], p[k + 1]));
        } else {
            let t = k - p.len() + 1;
            assert(tied(m, q[t], q[t + 1]));
        }
    }
    assert(is_chain(m, s));
}

/// Along a chain values stay equal, and so do the ranks of any ranking.
proof fn lemma_chain_alike(m: Seq<Seq<int>>, r: Seq<Seq<int>>, p: Seq<(int, int)>, k: int)
    requires
        is_chain(m, p),
        0 <= k < p.len(),
    ensures
        at(m, p[0]) == at(m, p[k]),
        valid_ranking(m, r) ==> at(r, p[0]) == at(r, p[k]),
    decreases k,
{
    if k > 0 {
        lemma_chain_alike(m, r, p, k - 1);
        assert(tied(m, p[k - 1], p[k]));
    }
}

/// Cells of one group hold one value, and every ranking gives them one rank.
pub proof fn lemma_linked_alike(
    m: Seq<Seq<int>>,
    r: Seq<Seq<int>>,
    a: (int, int),
    b: (int, int),
)
    requires
        linked(m, a, b),
    ensures
        at(m, a) == at(m, b),
        valid_ranking(m, r) ==> at(r, a) == at(r, b),
{
    let p = choose|p: Seq<(int, int)>| #[trigger] is_chain(m, p) && p[0] == a && p.last() == b;
    lemma_chain_alike(m, r, p, p.len() - 1);
}

/// The least ranking of a matrix with at least one cell uses the rank 1.
pub proof fn lemma_least_uses_one(m: Seq<Seq<int>>, r: Seq<Seq<int>>, c: (int, int))
    requires
        least_ranking(m, r),
        in_grid(m, c),
    ensures
        exists|d: (int, int)| in_grid(m, d) && #[trigger] at(r, d) == 1,
{
    if forall|d: (int, int)| in_grid(m, d) ==> #[trigger] at(r, d) != 1 {
        let lower = Seq::new(r.len(), |i: int| Seq::new(r[i].len(), |j: int| r[i][j] - 1));
        assert forall|d: (int, int)| in_grid(m, d) implies #[trigger] at(lower, d) >= 1 by {
            assert(at(r, d) >= 1);
        }
        assert forall|a: (int, int), b: (int, int)|
            #![trigger at(lower, a), at(lower, b)]
            in_grid(m, a) && in_grid(m, b) && share_line(a, b) implies ordered_alike(
            at(m, a),
            at(m, b),
            at(lower, a),
            at(lower, b),
        ) by {
            assert(ordered_alike(at(m, a), at(m, b), at(r, a), at(r, b)));
        }
        assert(valid_ranking(m, lower));
        assert(at(r, c) <= at(lower, c));
    }
}

/// Ranking the least ranking again gives it back: as a matrix of its own,
/// its least ranking is itself.
pub proof fn lemma_least_idempotent(m: Seq<Seq<int>>, r: Seq<Seq<int>>, r2: Seq<Seq<int>>)
    requires
        least_ranking(m, r),
        least_ranking(r, r2),
    ensures
        r2 == r,
{
    // r ranks itself, so r2 stays below r
    assert forall|a: (int, int), b: (int, int)|
        #![trigger at(r, a), at(r, b)]
        in_grid(r, a) && in_grid(r, b) && share_line(a, b) implies ordered_alike(
        at(r, a),
        at(r, b),
        at(r, a),
        at(r, b),
    ) by {}
    assert forall|c: (int, int)| in_grid(r, c) implies #[trigger] at(r, c) >= 1 by {
        assert(in_grid(m, c));
    }
    assert(valid_ranking(r, r));
    // r2 ranks m, so r stays below r2
    assert forall|c: (int, int)| in_grid(m, c) implies #[trigger] at(r2, c) >= 1 by {
        assert(in_grid(r, c));
    }
    assert forall|a: (int, int), b: (int, int)|
        #![trigger at(r2, a), at(r2, b)]
        in_grid(m, a) && in_grid(m, b) && share_line(a, b) implies ordered_alike(
        at(m, a),
        at(m, b),
        at(r2, a),
        at(r2, b),
    ) by {
        assert(ordered_alike(at(m, a), at(m, b), at(r, a), at(r, b)));
        assert(in_grid(r, a) && in_grid(r, b));
        assert(ordered_alike(at(r, a), at(r, b), at(r2, a), at(r2, b)));
    }
    assert(valid_ranking(m, r2));
    assert forall|i: int| 0 <= i < r.len() implies #[trigger] r2[i] == r[i] by {
        assert forall|j: int| 0 <= j < r[i].len() implies r2[i][j] == r[i][j] by {
            assert(in_grid(m, (i, j)) && in_grid(r, (i, j)));
            assert(at(r, (i, j)) <= at(r2, (i, j)));
            assert(at(r2, (i, j)) <= at(r, (i, j)));
        }
        assert(r2[i] =~= r[i]);
    }
    assert(r2 =~= r);
}

} // verus!

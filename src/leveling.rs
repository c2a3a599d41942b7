use vstd::prelude::*;
use crate::graph::{acyclic, is_leveling, leveled_at, monotone, simple_graph};

verus! {

/// The leveling engine met a graph in which no node is ready although some
/// are not finished: the graph has a cycle.
#[derive(Debug, PartialEq, Eq, Structural)]
pub enum RankError {
    Cycle,
}

/// The number of sources `u < upto` that are not finished and have an edge to `v`.
pub open spec fn pending(succ: Seq<Vec<usize>>, done: Seq<bool>, v: int, upto: int) -> nat
    decreases upto,
{
    if upto <= 0 {
        0
    } else {
        pending(succ, done, v, upto - 1) + if !done[upto - 1] && succ[upto - 1]@.contains(
            v as usize,
        ) {
            1nat
        } else {
            0nat
        }
    }
}

/// The number of finished nodes below `upto`.
pub open spec fn num_done(done: Seq<bool>, upto: int) -> nat
    decreases upto,
{
    if upto <= 0 {
        0
    } else {
        num_done(done, upto - 1) + if done[upto - 1] {
            1nat
        } else {
            0nat
        }
    }
}

/// `w` occurs in `s` at a position in `lo..hi`.
pub open spec fn occurs(s: Seq<usize>, w: int, lo: int, hi: int) -> bool {
    exists|t: int| lo <= t < hi && 0 <= t < s.len() && #[trigger] s[t] == w
}

proof fn lemma_pending_bound(succ: Seq<Vec<usize>>, done: Seq<bool>, v: int, upto: int)
    requires
        upto >= 0,
    ensures
        pending(succ, done, v, upto) <= upto,
    decreases upto,
{
    if upto > 0 {
        lemma_pending_bound(succ, done, v, upto - 1);
    }
}

proof fn lemma_pending_source(succ: Seq<Vec<usize>>, done: Seq<bool>, v: int, upto: int)
    requires
        pending(succ, done, v, upto) > 0,
    ensures
        exists|x: int| 0 <= x < upto && !done[x] && (#[trigger] succ[x]@).contains(v as usize),
    decreases upto,
{
    if upto > 0 && pending(succ, done, v, upto - 1) > 0 {
        lemma_pending_source(succ, done, v, upto - 1);
    }
}

proof fn lemma_pending_finish(
    succ: Seq<Vec<usize>>,
    done: Seq<bool>,
    u: int,
    v: int,
    upto: int,
)
    requires
        0 <= u < done.len(),
        !done[u],
        upto <= done.len(),
    ensures
        pending(succ, done, v, upto) == pending(succ, done.update(u, true), v, upto) + if u < upto
            && succ[u]@.contains(v as usize) {
            1nat
        } else {
            0nat
        },
    decreases upto,
{
    if upto > 0 {
        lemma_pending_finish(succ, done, u, v, upto - 1);
    }
}

proof fn lemma_num_done_finish(done: Seq<bool>, u: int, upto: int)
    requires
        0 <= u < done.len(),
        !done[u],
        upto <= done.len(),
    ensures
        num_done(done.update(u, true), upto) == num_done(done, upto) + if u < upto {
            1nat
        } else {
            0nat
        },
    decreases upto,
{
    if upto > 0 {
        lemma_num_done_finish(done, u, upto - 1);
    }
}

proof fn lemma_num_done_bound(done: Seq<bool>, upto: int)
    requires
        0 <= upto <= done.len(),
    ensures
        num_done(done, upto) <= upto,
        num_done(done, upto) == upto <==> forall|x: int| 0 <= x < upto ==> #[trigger] done[x],
    decreases upto,
{
    if upto > 0 {
        lemma_num_done_bound(done, upto - 1);
    }
}

/// Some unfinished node has an edge to `v`.
pub open spec fn stalled(succ: Seq<Vec<usize>>, done: Seq<bool>, v: int) -> bool {
    exists|x: int| 0 <= x < succ.len() && !done[x] && (#[trigger] succ[x]@).contains(v as usize)
}

/// When every unfinished node has an unfinished predecessor, a labelling
/// that grows along every edge puts every unfinished node above `j`.
proof fn lemma_stuck(succ: Seq<Vec<usize>>, done: Seq<bool>, lab: Seq<nat>, j: nat)
    requires
        monotone(succ, lab),
        done.len() == succ.len(),
        succ.len() < usize::MAX,
        forall|v: int| 0 <= v < succ.len() && !done[v] ==> #[trigger] stalled(succ, done, v),
    ensures
        forall|v: int| 0 <= v < succ.len() && !done[v] ==> #[trigger] lab[v] > j,
    decreases j,
{
    assert forall|v: int| 0 <= v < succ.len() && !done[v] implies #[trigger] lab[v] > j by {
        assert(stalled(succ, done, v));
        let x = choose|x: int|
            0 <= x < succ.len() && !done[x] && (#[trigger] succ[x]@).contains(v as usize);
        assert(succ[x]@.contains(v as usize));
        let k = choose|k: int| 0 <= k < succ[x]@.len() && succ[x]@[k] == v as usize;
        assert(lab[x] < lab[succ[x]@[k] as int]);
        if j > 0 {
            lemma_stuck(succ, done, lab, (j - 1) as nat);
            assert(lab[x] > j - 1);
        }
    }
}

/// Ranks every node of a graph by the number of nodes on a longest path that
/// ends there, finishing nodes in a topological order: a node is ready once
/// all its predecessors are finished, and `seed` picks among ready nodes.
pub fn level_graph(succ: &Vec<Vec<usize>>, seed: u64) -> (res: Result<Vec<usize>, RankError>)
    requires
        simple_graph(succ@),
        succ@.len() < usize::MAX,
    ensures
        res is Ok <==> acyclic(succ@),
        res matches Ok(r) ==> is_leveling(succ@, r@),
        res matches Ok(r) ==> forall|v: int| 0 <= v < r@.len() ==> #[trigger] r@[v] <= succ@.len(),
{
    let n = succ.len();
    let mut indeg = in_degrees(succ);
    let mut ready = sources(&indeg);
    let mut done = repeat(false, n);
    let mut rank = repeat(1usize, n);
    let mut count: usize = 0;
    let mut seed = seed;
    proof {
        lemma_start(succ@, indeg@, done@, rank@, ready@);
    }
    while ready.len() > 0
        invariant
            kahn_inv(succ@, indeg@, done@, rank@, ready@, count as int, n as int, 0),
            n == succ@.len(),
            done@.len() == n,
            count <= n,
        decreases n - count,
    {
        let pick = (seed % (ready.len() as u64)) as usize;
        seed = seed.wrapping_mul(6364136223846793005).wrapping_add(1442695040888963407);
        let ghost before = ready@;
        let u = ready.swap_remove(pick);
        proof {
            lemma_finish(succ@, indeg@, done@, rank@, before, ready@, count as int, pick as int);
        }
        done.set(u, true);
        count = count + 1;
        release(succ, u, &mut indeg, &done, &mut rank, &mut ready, count);
    }
    proof {
        lemma_end(succ@, indeg@, done@, rank@, ready@, count as int);
    }
    if count < n {
        Err(RankError::Cycle)
    } else {
        Ok(rank)
    }
}

/// `n` copies of `x`.
pub(crate) fn repeat<T: Copy>(x: T, n: usize) -> (v: Vec<T>)
    ensures
        v@ == Seq::new(n as nat, |i: int| x),
{
    let mut v: Vec<T> = Vec::new();
    let mut i: usize = 0;
    while i < n
        invariant
            i <= n,
            v@ == Seq::new(i as nat, |j: int| x),
        decreases n - i,
    {
        v.push(x);
        i = i + 1;
        assert(v@ =~= Seq::new(i as nat, |j: int| x));
    }
    v
}

/// For every node, the number of edges that enter it.
fn in_degrees(succ: &Vec<Vec<usize>>) -> (indeg: Vec<usize>)
    requires
        simple_graph(succ@),
    ensures
        indeg@.len() == succ@.len(),
        forall|w: int|
            0 <= w < succ@.len() ==> #[trigger] indeg@[w] == pending(
                succ@,
                Seq::new(succ@.len(), |i: int| false),
                w,
                succ@.len() as int,
            ),
{
    let n = succ.len();
    let ghost none = Seq::new(n as nat, |i: int| false);
    let mut indeg = repeat(0usize, n);
    // count, for every node, the edges that enter it
    let mut u: usize = 0;
    while u < n
        invariant
            n == succ@.len(),
            none == Seq::new(n as nat, |i: int| false),
            simple_graph(succ@),
            u <= n,
            indeg@.len() == n,
            forall|w: int| 0 <= w < n ==> indeg@[w] == pending(succ@, none, w, u as int),
        decreases n - u,
    {
        let mut k: usize = 0;
        while k < succ[u].len()
            invariant
                n == succ@.len(),
                simple_graph(succ@),
                u < n,
                k <= succ[u as int]@.len(),
                indeg@.len() == n,
                forall|w: int|
                    0 <= w < n ==> indeg@[w] == pending(succ@, none, w, u as int) + if occurs(
                        succ[u as int]@,
                        w,
                        0,
                        k as int,
                    ) {
                        1nat
                    } else {
                        0nat
                    },
            decreases succ[u as int]@.len() - k,
        {
            let w = succ[u][k];
            assert(w < n);
            assert(!occurs(succ[u as int]@, w as int, 0, k as int));
            proof {
                lemma_pending_bound(succ@, none, w as int, u as int);
            }
            indeg.set(w, indeg[w] + 1);
            assert forall|x: int| 0 <= x < n implies occurs(succ[u as int]@, x, 0, k + 1) == (
            occurs(succ[u as int]@, x, 0, k as int) || x == w) by {
                if x == w {
                    assert(succ[u as int]@[k as int] == w);
                }
            }
            k = k + 1;
        }
        assert forall|w: int| 0 <= w < n implies indeg@[w] == pending(succ@, none, w, u + 1) by {
            if succ[u as int]@.contains(w as usize) {
                let t = choose|t: int| 0 <= t < succ[u as int]@.len() && succ[u as int]@[t] == w as usize;
                assert(succ[u as int]@[t] == w);
            }
            assert(!none[u as int]);
        }
        u = u + 1;
    }
    indeg
}

/// The nodes that no edge enters.
fn sources(indeg: &Vec<usize>) -> (ready: Vec<usize>)
    ensures
        ready@.no_duplicates(),
        forall|t: int|
            0 <= t < ready@.len() ==> #[trigger] ready@[t] < indeg@.len() && indeg@[ready@[t] as int] == 0,
        forall|w: int| 0 <= w < indeg@.len() && indeg@[w] == 0 ==> ready@.contains(w as usize),
{
    let n = indeg.len();
    // the nodes that no edge enters are ready
    let mut ready: Vec<usize> = Vec::new();
    let mut v: usize = 0;
    while v < n
        invariant
            v <= n,
            indeg@.len() == n,
            forall|t: int| 0 <= t < ready@.len() ==> #[trigger] ready@[t] < v && indeg@[ready@[t] as int] == 0,
            ready@.no_duplicates(),
            forall|w: int| 0 <= w < v && indeg@[w] == 0 ==> ready@.contains(w as usize),
        decreases n - v,
    {
        let ghost before = ready@;
        if indeg[v] == 0 {
            ready.push(v);
            assert(ready@ == before.push(v));
            assert(!before.contains(v));
            assert(ready@[ready@.len() - 1] == v);
        }
        assert forall|w: int| 0 <= w < v + 1 && indeg@[w] == 0 implies ready@.contains(w as usize) by {
            if w < v {
                let t = choose|t: int| 0 <= t < before.len() && before[t] == w as usize;
                assert(ready@[t] == w as usize);
            } else {
                assert(ready@[ready@.len() - 1] == v);
            }
        }
        v = v + 1;
    }
    ready
}

proof fn lemma_start(
    succ: Seq<Vec<usize>>,
    indeg: Seq<usize>,
    done: Seq<bool>,
    rank: Seq<usize>,
    ready: Seq<usize>,
)
    requires
        simple_graph(succ),
        succ.len() < usize::MAX,
        indeg.len() == succ.len(),
        forall|w: int|
            0 <= w < succ.len() ==> #[trigger] indeg[w] == pending(succ, done, w, succ.len() as int),
        done == Seq::new(succ.len(), |i: int| false),
        rank == Seq::new(succ.len(), |i: int| 1usize),
        ready.no_duplicates(),
        forall|t: int| 0 <= t < ready.len() ==> #[trigger] ready[t] < indeg.len() && indeg[ready[t] as int] == 0,
        forall|w: int| 0 <= w < indeg.len() && indeg[w] == 0 ==> ready.contains(w as usize),
    ensures
        kahn_inv(succ, indeg, done, rank, ready, 0, succ.len() as int, 0),
        done.len() == succ.len(),
{
    lemma_num_done_zero(done, succ.len() as int);
    reveal(kahn_inv);
}

/// Once no node is ready, either every node is finished and the ranks are a
/// leveling, or the unfinished ones lie on a cycle.
proof fn lemma_end(
    succ: Seq<Vec<usize>>,
    indeg: Seq<usize>,
    done: Seq<bool>,
    rank: Seq<usize>,
    ready: Seq<usize>,
    count: int,
)
    requires
        kahn_inv(succ, indeg, done, rank, ready, count, succ.len() as int, 0),
        ready.len() == 0,
    ensures
        count <= succ.len(),
        count < succ.len() ==> !acyclic(succ),
        count == succ.len() ==> is_leveling(succ, rank) && acyclic(succ),
        count == succ.len() ==> forall|v: int| 0 <= v < rank.len() ==> #[trigger] rank[v] <= succ.len(),
{
    reveal(kahn_inv);
    let n = succ.len() as int;
    lemma_num_done_bound(done, n);
    if count < n {
        lemma_cycle(succ, indeg, done, rank, ready, count);
    } else {
        let lab = rank.map_values(|r: usize| r as nat);
        assert forall|u: int, k: int| 0 <= u < n && 0 <= k < succ[u]@.len() implies lab[u] < lab[
        #[trigger] succ[u]@[k] as int] by {
            assert(done[u]);
        }
        assert(monotone(succ, lab));
        assert forall|v: int| 0 <= v < n implies #[trigger] rank[v] <= n by {
            assert(done[v]);
        }
        assert forall|v: int| 0 <= v < n implies #[trigger] leveled_at(succ, rank, v) by {
            assert(supported(succ, done, rank, v));
        }
    }
}

proof fn lemma_cycle(
    succ: Seq<Vec<usize>>,
    indeg: Seq<usize>,
    done: Seq<bool>,
    rank: Seq<usize>,
    ready: Seq<usize>,
    count: int,
)
    requires
        kahn_inv(succ, indeg, done, rank, ready, count, succ.len() as int, 0),
        ready.len() == 0,
        count < succ.len(),
    ensures
        !acyclic(succ),
{
    reveal(kahn_inv);
    let n = succ.len() as int;
    lemma_num_done_bound(done, n);
    assert forall|v: int| 0 <= v < n && !done[v] implies #[trigger] stalled(succ, done, v) by {
        assert(!ready.contains(v as usize));
        assert(indeg[v] != 0);
        lemma_pending_source(succ, done, v, n);
    }
    let w = choose|w: int| 0 <= w < n && !done[w];
    assert forall|lab: Seq<nat>| !#[trigger] monotone(succ, lab) by {
        if monotone(succ, lab) {
            lemma_stuck(succ, done, lab, lab[w]);
        }
    }
}

/// The state of the engine while node `u` hands its rank to the targets of
/// its edges from position `k` on; `u == succ.len()` between nodes.
#[verifier::opaque]
pub open spec fn kahn_inv(
    succ: Seq<Vec<usize>>,
    indeg: Seq<usize>,
    done: Seq<bool>,
    rank: Seq<usize>,
    ready: Seq<usize>,
    count: int,
    u: int,
    k: int,
) -> bool {
    let n = succ.len() as int;
    &&& n < usize::MAX
    &&& simple_graph(succ)
    &&& indeg.len() == n
    &&& done.len() == n
    &&& rank.len() == n
    &&& count == num_done(done, n)
    &&& count <= n
    &&& forall|w: int|
        0 <= w < n ==> #[trigger] indeg[w] == pending(succ, done, w, n) + if u < n && occurs(
            succ[u]@,
            w,
            k,
            succ[u]@.len() as int,
        ) {
            1nat
        } else {
            0nat
        }
    &&& forall|w: int| 0 <= w < n && #[trigger] done[w] ==> indeg[w] == 0
    &&& forall|t: int|
        0 <= t < ready.len() ==> #[trigger] ready[t] < n && !done[ready[t] as int] && indeg[ready[t] as int]
            == 0
    &&& ready.no_duplicates()
    &&& forall|w: int| 0 <= w < n && !done[w] && indeg[w] == 0 ==> ready.contains(w as usize)
    &&& forall|w: int| 0 <= w < n ==> 1 <= #[trigger] rank[w] <= count + 1
    &&& forall|w: int| 0 <= w < n && #[trigger] done[w] ==> rank[w] <= count
    &&& forall|x: int, j: int|
        0 <= x < n && done[x] && (x != u || j < k) && 0 <= j < succ[x]@.len() ==> rank[x]
            < rank[#[trigger] succ[x]@[j] as int]
    &&& forall|w: int| 0 <= w < n ==> #[trigger] supported(succ, done, rank, w)
}

/// Rank `rank[w]` is 1, or one above the rank of a finished predecessor.
pub open spec fn supported(succ: Seq<Vec<usize>>, done: Seq<bool>, rank: Seq<usize>, w: int) -> bool {
    rank[w] == 1 || exists|x: int, j: int|
        0 <= x < succ.len() && done[x] && 0 <= j < succ[x]@.len() && #[trigger] succ[x]@[j] == w
            && rank[x] + 1 == rank[w]
}

/// Taking a ready node out of the ready list.
proof fn lemma_take_ready(before: Seq<usize>, after: Seq<usize>, pick: int)
    requires
        0 <= pick < before.len(),
        after == before.update(pick, before.last()).drop_last(),
        before.no_duplicates(),
    ensures
        after.no_duplicates(),
        forall|t: int| 0 <= t < after.len() ==> #[trigger] after[t] != before[pick],
        forall|t: int| 0 <= t < after.len() ==> before.contains(#[trigger] after[t]),
        forall|w: usize| before.contains(w) && w != before[pick] ==> after.contains(w),
{
    let u = before[pick];
    let last = before.len() - 1;
    assert forall|t: int| 0 <= t < after.len() implies #[trigger] after[t] == if t == pick {
        before[last]
    } else {
        before[t]
    } by {}
    assert forall|t: int| 0 <= t < after.len() implies #[trigger] after[t] != u by {
        if t == pick {
            assert(last != pick);
        }
    }
    assert forall|t: int| 0 <= t < after.len() implies before.contains(#[trigger] after[t]) by {
        if t == pick {
            assert(before[last] == after[t]);
        } else {
            assert(before[t] == after[t]);
        }
    }
    assert forall|w: usize| before.contains(w) && w != u implies after.contains(w) by {
        let t = choose|t: int| 0 <= t < before.len() && before[t] == w;
        if t == last {
            assert(after[pick] == w);
        } else {
            assert(after[t] == w);
        }
    }
    assert forall|i: int, j: int| 0 <= i < after.len() && 0 <= j < after.len() && i != j implies after[i]
        != after[j] by {
        let bi = if i == pick {
            last
        } else {
            i
        };
        let bj = if j == pick {
            last
        } else {
            j
        };
        assert(after[i] == before[bi]);
        assert(after[j] == before[bj]);
    }
}

/// Taking the ready node `u` out of the ready list and marking it finished
/// starts the hand-over of its rank.
proof fn lemma_finish(
    succ: Seq<Vec<usize>>,
    indeg: Seq<usize>,
    done: Seq<bool>,
    rank: Seq<usize>,
    before: Seq<usize>,
    after: Seq<usize>,
    count: int,
    pick: int,
)
    requires
        kahn_inv(succ, indeg, done, rank, before, count, succ.len() as int, 0),
        0 <= pick < before.len(),
        after == before.update(pick, before.last()).drop_last(),
    ensures
        kahn_inv(
            succ,
            indeg,
            done.update(before[pick] as int, true),
            rank,
            after,
            count + 1,
            before[pick] as int,
            0,
        ),
        before[pick] < succ.len(),
        count < succ.len(),
        done.len() == succ.len(),
        !done[before[pick] as int],
{
    let n = succ.len() as int;
    reveal(kahn_inv);
    let u = before[pick] as int;
    let done2 = done.update(u, true);
    lemma_take_ready(before, after, pick);
    lemma_num_done_finish(done, u, n);
    lemma_num_done_bound(done2, n);
    assert forall|w: int| 0 <= w < n implies #[trigger] indeg[w] == pending(succ, done2, w, n) + if u
        < n && occurs(succ[u]@, w, 0, succ[u]@.len() as int) {
        1nat
    } else {
        0nat
    } by {
        lemma_pending_finish(succ, done, u, w, n);
        if succ[u]@.contains(w as usize) {
            let t = choose|t: int| 0 <= t < succ[u]@.len() && succ[u]@[t] == w as usize;
            assert(succ[u]@[t] == w);
        }
    }
    assert forall|t: int| 0 <= t < after.len() implies #[trigger] after[t] < n && !done2[after[t] as int]
        && indeg[after[t] as int] == 0 by {
        assert(before.contains(after[t]));
        let i = choose|i: int| 0 <= i < before.len() && before[i] == after[t];
        assert(before[i] < n);
    }
    assert forall|w: int| 0 <= w < n && !done2[w] && indeg[w] == 0 implies after.contains(w as usize) by {
        assert(before.contains(w as usize));
    }
    assert forall|w: int| 0 <= w < n implies #[trigger] supported(succ, done2, rank, w) by {
        assert(supported(succ, done, rank, w));
        if rank[w] != 1 {
            let (x, j) = choose|x: int, j: int|
                0 <= x < n && done[x] && 0 <= j < succ[x]@.len() && #[trigger] succ[x]@[j] == w
                    && rank[x] + 1 == rank[w];
            assert(done2[x]);
        }
    }
}

/// Node `u` is finished: each target of its edges gets a rank above `u`'s,
/// loses one unfinished predecessor, and becomes ready when none is left.
fn release(
    succ: &Vec<Vec<usize>>,
    u: usize,
    indeg: &mut Vec<usize>,
    done: &Vec<bool>,
    rank: &mut Vec<usize>,
    ready: &mut Vec<usize>,
    count: usize,
)
    requires
        kahn_inv(succ@, old(indeg)@, done@, old(rank)@, old(ready)@, count as int, u as int, 0),
        u < succ@.len(),
        done@.len() == succ@.len(),
        done@[u as int],
    ensures
        kahn_inv(succ@, final(indeg)@, done@, final(rank)@, final(ready)@, count as int, succ@.len() as int, 0),
{
    let ghost n = succ@.len() as int;
    let mut k: usize = 0;
    while k < succ[u].len()
        invariant
            kahn_inv(succ@, indeg@, done@, rank@, ready@, count as int, u as int, k as int),
            n == succ@.len(),
            u < n,
            done@.len() == n,
            done@[u as int],
            k <= succ[u as int]@.len(),
        decreases succ[u as int]@.len() - k,
    {
        let w = succ[u][k];
        proof {
            lemma_edge_facts(succ@, indeg@, done@, rank@, ready@, count as int, u as int, k as int);
        }
        let ghost indeg0 = indeg@;
        let ghost rank0 = rank@;
        let ghost ready0 = ready@;
        let r = rank[u] + 1;
        if rank[w] < r {
            rank.set(w, r);
        }
        indeg.set(w, indeg[w] - 1);
        if indeg[w] == 0 {
            ready.push(w);
        }
        proof {
            lemma_edge(succ@, indeg0, done@, rank0, ready0, count as int, u as int, k as int, indeg@, rank@, ready@);
        }
        k = k + 1;
    }
    proof {
        reveal(kahn_inv);
    }
}

/// What holds of the edge at position `k` of `u` before it is followed.
proof fn lemma_edge_facts(
    succ: Seq<Vec<usize>>,
    indeg: Seq<usize>,
    done: Seq<bool>,
    rank: Seq<usize>,
    ready: Seq<usize>,
    count: int,
    u: int,
    k: int,
)
    requires
        kahn_inv(succ, indeg, done, rank, ready, count, u, k),
        0 <= u < succ.len(),
        done[u],
        0 <= k < succ[u]@.len(),
    ensures
        succ[u]@[k] < succ.len(),
        succ[u]@[k] != u,
        indeg.len() == succ.len(),
        rank.len() == succ.len(),
        indeg[succ[u]@[k] as int] >= 1,
        !done[succ[u]@[k] as int],
        rank[u] <= count <= succ.len() < usize::MAX,
{
    reveal(kahn_inv);
    let w = succ[u]@[k] as int;
    assert(occurs(succ[u]@, w, k, succ[u]@.len() as int));
}

/// Following the edge at position `k` of `u`.
proof fn lemma_edge(
    succ: Seq<Vec<usize>>,
    indeg: Seq<usize>,
    done: Seq<bool>,
    rank: Seq<usize>,
    ready: Seq<usize>,
    count: int,
    u: int,
    k: int,
    indeg2: Seq<usize>,
    rank2: Seq<usize>,
    ready2: Seq<usize>,
)
    requires
        kahn_inv(succ, indeg, done, rank, ready, count, u, k),
        0 <= u < succ.len(),
        done[u],
        0 <= k < succ[u]@.len(),
        indeg[succ[u]@[k] as int] >= 1,
        rank2 == if rank[succ[u]@[k] as int] < rank[u] + 1 {
            rank.update(succ[u]@[k] as int, (rank[u] + 1) as usize)
        } else {
            rank
        },
        indeg2 == indeg.update(succ[u]@[k] as int, (indeg[succ[u]@[k] as int] - 1) as usize),
        ready2 == if indeg2[succ[u]@[k] as int] == 0 {
            ready.push(succ[u]@[k])
        } else {
            ready
        },
    ensures
        kahn_inv(succ, indeg2, done, rank2, ready2, count, u, k + 1),
{
    reveal(kahn_inv);
    let n = succ.len() as int;
    let w = succ[u]@[k] as int;
    assert(occurs(succ[u]@, w, k, succ[u]@.len() as int));
    assert(!done[w]);
    assert forall|x: int| 0 <= x < n implies occurs(succ[u]@, x, k, succ[u]@.len() as int) == (occurs(
        succ[u]@,
        x,
        k + 1,
        succ[u]@.len() as int,
    ) || x == w) by {
        if x == w {
            assert(succ[u]@[k] == w);
        }
        if occurs(succ[u]@, x, k, succ[u]@.len() as int) && x != w {
            let t = choose|t: int| k <= t < succ[u]@.len() && 0 <= t < succ[u]@.len() && #[trigger] succ[u]@[t] == x;
            assert(t != k);
        }
    }
    assert(!occurs(succ[u]@, w, k + 1, succ[u]@.len() as int));
    assert forall|y: int| 0 <= y < n implies #[trigger] indeg2[y] == pending(succ, done, y, n) + if u < n
        && occurs(succ[u]@, y, k + 1, succ[u]@.len() as int) {
        1nat
    } else {
        0nat
    } by {}
    if indeg2[w] == 0 {
        assert(!ready.contains(w as usize));
        assert(ready2[ready2.len() - 1] == w);
    }
    assert forall|t: int|
        0 <= t < ready2.len() implies #[trigger] ready2[t] < n && !done[ready2[t] as int] && indeg2[ready2[t]
            as int] == 0 by {
        if t < ready.len() {
            assert(ready2[t] == ready[t]);
        }
    }
    assert forall|y: int| 0 <= y < n && !done[y] && indeg2[y] == 0 implies ready2.contains(y as usize) by {
        if y != w {
            let t = choose|t: int| 0 <= t < ready.len() && ready[t] == y as usize;
            assert(ready2[t] == y as usize);
        } else {
            assert(ready2[ready2.len() - 1] == w);
        }
    }
    assert forall|x: int, j: int|
        0 <= x < n && done[x] && (x != u || j < k + 1) && 0 <= j < succ[x]@.len() implies rank2[x]
            < rank2[#[trigger] succ[x]@[j] as int] by {
        if x == u && j == k {
        } else {
            assert(rank[x] < rank[succ[x]@[j] as int]);
        }
    }
    assert forall|y: int| 0 <= y < n implies #[trigger] supported(succ, done, rank2, y) by {
        assert(supported(succ, done, rank, y));
        if y == w && rank2[y] != rank[y] {
            assert(succ[u]@[k] == y);
        } else if rank[y] != 1 {
            let (x, j) = choose|x: int, j: int|
                0 <= x < n && done[x] && 0 <= j < succ[x]@.len() && #[trigger] succ[x]@[j] == y
                    && rank[x] + 1 == rank[y];
            assert(rank2[x] == rank[x]);
        }
    }
}


proof fn lemma_num_done_zero(done: Seq<bool>, upto: int)
    requires
        0 <= upto <= done.len(),
        forall|x: int| 0 <= x < upto ==> !#[trigger] done[x],
    ensures
        num_done(done, upto) == 0,
    decreases upto,
{
    if upto > 0 {
        lemma_num_done_zero(done, upto - 1);
    }
}

/// A graph has at most one leveling, so the order in which ready nodes are
/// finished never changes the ranks.
pub proof fn lemma_leveling_unique(succ: Seq<Vec<usize>>, r1: Seq<usize>, r2: Seq<usize>)
    requires
        is_leveling(succ, r1),
        is_leveling(succ, r2),
    ensures
        r1 == r2,
{
    assert forall|v: int| 0 <= v < r1.len() implies #[trigger] r1[v] <= r2[v] by {
        lemma_leveling_below(succ, r1, r2, r1[v] as nat);
    }
    assert forall|v: int| 0 <= v < r1.len() implies #[trigger] r2[v] <= r1[v] by {
        lemma_leveling_below(succ, r2, r1, r2[v] as nat);
    }
    assert(r1 =~= r2);
}

/// Where one leveling gives `k`, another gives at least `k`.
proof fn lemma_leveling_below(succ: Seq<Vec<usize>>, r1: Seq<usize>, r2: Seq<usize>, k: nat)
    requires
        is_leveling(succ, r1),
        is_leveling(succ, r2),
    ensures
        forall|v: int| 0 <= v < r1.len() && r1[v] == k ==> k <= #[trigger] r2[v],
    decreases k,
{
    assert forall|v: int| 0 <= v < r1.len() && r1[v] == k implies k <= #[trigger] r2[v] by {
        assert(r2[v] >= 1);
        if k > 1 {
            assert(leveled_at(succ, r1, v));
            let (u, i) = choose|u: int, i: int|
                0 <= u < succ.len() && 0 <= i < succ[u]@.len() && #[trigger] succ[u]@[i] == v && r1[u] + 1
                    == r1[v];
            lemma_leveling_below(succ, r1, r2, (k - 1) as nat);
            assert(r2[u] < r2[succ[u]@[i] as int]);
        }
    }
}

} // verus!

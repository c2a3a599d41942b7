use vstd::prelude::*;

verus! {

/// Disjoint sets over the indices `0..n`, linked by parent pointers and
/// flattened by path compression on every lookup.
pub struct UnionFind {
    parent: Vec<usize>,
    /// The representative of each element.
    roots: Ghost<Seq<usize>>,
    /// A measure that strictly grows along parent links, so that walking up
    /// from any element reaches its representative.
    height: Ghost<Seq<nat>>,
    /// An upper bound of every height.
    bound: Ghost<nat>,
}

impl View for UnionFind {
    type V = Seq<usize>;

    /// Element `x` belongs to the set represented by `self@[x]`.
    closed spec fn view(&self) -> Seq<usize> {
        self.roots@
    }
}

/// `rep` maps each element to a representative that represents itself.
pub open spec fn is_partition(rep: Seq<usize>) -> bool {
    forall|x: int| 0 <= x < rep.len() ==> {
        &&& (#[trigger] rep[x]) < rep.len()
        &&& rep[rep[x] as int] == rep[x]
    }
}

/// The representatives after merging the set of `a` into the set of `b`.
pub open spec fn merged(rep: Seq<usize>, a: int, b: int) -> Seq<usize> {
    Seq::new(rep.len(), |x: int| if rep[x] == rep[a] { rep[b] } else { rep[x] })
}

impl UnionFind {
    pub closed spec fn wf(&self) -> bool {
        let n = self.parent@.len();
        &&& self.roots@.len() == n
        &&& self.height@.len() == n
        &&& is_partition(self.roots@)
        &&& forall|x: int|
            #![trigger self.parent@[x]]
            0 <= x < n ==> {
                &&& self.parent@[x] < n
                &&& self.roots@[self.parent@[x] as int] == self.roots@[x]
                &&& (self.parent@[x] == x <==> self.roots@[x] == x)
                &&& self.parent@[x] != x ==> self.height@[self.parent@[x] as int]
                    > self.height@[x]
            }
        &&& forall|x: int|
            #![trigger self.roots@[x]]
            0 <= x < n ==> {
                &&& self.roots@[x] != x ==> self.height@[self.roots@[x] as int] > self.height@[x]
                &&& self.height@[x] <= self.bound@
            }
    }

    /// `n` singleton sets.
    pub fn new(n: usize) -> (uf: UnionFind)
        ensures
            uf.wf(),
            uf@.len() == n,
            forall|x: int| 0 <= x < n ==> uf@[x] == x,
    {
        let mut parent: Vec<usize> = Vec::new();
        let mut i: usize = 0;
        while i < n
            invariant
                i <= n,
                parent@.len() == i,
                forall|x: int| 0 <= x < i ==> parent@[x] == x,
            decreases n - i,
        {
            parent.push(i);
            i = i + 1;
        }
        UnionFind {
            parent,
            roots: Ghost(Seq::new(n as nat, |x: int| x as usize)),
            height: Ghost(Seq::new(n as nat, |x: int| 0nat)),
            bound: Ghost(0nat),
        }
    }

    /// Each element's representative represents itself.
    pub proof fn lemma_partition(&self)
        requires
            self.wf(),
        ensures
            is_partition(self@),
    {
    }

    pub fn len(&self) -> (n: usize)
        requires
            self.wf(),
        ensures
            n == self@.len(),
    {
        self.parent.len()
    }

    /// The representative of `x`; the sets are left as they are.
    pub fn find(&mut self, x: usize) -> (r: usize)
        requires
            old(self).wf(),
            x < old(self)@.len(),
        ensures
            final(self).wf(),
            final(self)@ == old(self)@,
            r == old(self)@[x as int],
    {
        let mut cur = x;
        while self.parent[cur] != cur
            invariant
                self.wf(),
                cur < self@.len(),
                self@[cur as int] == self@[x as int],
            decreases self.bound@ - self.height@[cur as int],
        {
            cur = self.parent[cur];
        }
        let r = cur;
        cur = x;
        while cur != r
            invariant
                self.wf(),
                self@ == old(self)@,
                self.height@ == old(self).height@,
                self.bound@ == old(self).bound@,
                r < self@.len(),
                cur < self@.len(),
                self@[cur as int] == r,
                self@[r as int] == r,
            decreases self.bound@ - self.height@[cur as int],
        {
            let next = self.parent[cur];
            self.parent.set(cur, r);
            cur = next;
        }
        r
    }

    /// Merges the set of `a` into the set of `b`.
    pub fn union(&mut self, a: usize, b: usize)
        requires
            old(self).wf(),
            a < old(self)@.len(),
            b < old(self)@.len(),
        ensures
            final(self).wf(),
            final(self)@ == merged(old(self)@, a as int, b as int),
    {
        let ra = self.find(a);
        let rb = self.find(b);
        if ra != rb {
            let ghost old_roots = self.roots@;
            let ghost old_height = self.height@;
            let ghost hb = if old_height[rb as int] > old_height[ra as int] {
                old_height[rb as int]
            } else {
                old_height[ra as int] + 1
            };
            self.parent.set(ra, rb);
            self.roots = Ghost(merged(old_roots, a as int, b as int));
            self.height = Ghost(old_height.update(rb as int, hb));
            self.bound = Ghost(if hb > self.bound@ { hb } else { self.bound@ });
            assert forall|x: int| 0 <= x < old_roots.len() && old_roots[x] == ra implies
                old_height[x] <= old_height[ra as int] by {}
        } else {
            assert(merged(self@, a as int, b as int) =~= self@);
        }
    }

    /// The members of each set: entry `r` lists, in increasing order, the
    /// elements whose representative is `r`, and is empty where `r` is not a
    /// representative.
    pub fn groups(&mut self) -> (g: Vec<Vec<usize>>)
        requires
            old(self).wf(),
        ensures
            final(self).wf(),
            final(self)@ == old(self)@,
            g@.len() == old(self)@.len(),
            forall|r: int, x: int|
                0 <= r < g@.len() && 0 <= x < g@.len() ==> (#[trigger] g@[r]@.contains(x as usize) <==> old(
                    self,
                )@[x] == r),
            forall|r: int, a: int, b: int|
                0 <= r < g@.len() && 0 <= a < b < g@[r]@.len() ==> #[trigger] g@[r]@[a] < #[trigger] g@[r]@[b],
            forall|r: int, a: int|
                0 <= r < g@.len() && 0 <= a < g@[r]@.len() ==> #[trigger] g@[r]@[a] < g@.len(),
    {
        let n = self.len();
        let mut g: Vec<Vec<usize>> = Vec::new();
        let mut i: usize = 0;
        while i < n
            invariant
                i <= n,
                g@.len() == i,
                forall|r: int| 0 <= r < i ==> (#[trigger] g@[r])@.len() == 0,
            decreases n - i,
        {
            g.push(Vec::new());
            i = i + 1;
        }
        let mut x: usize = 0;
        while x < n
            invariant
                self.wf(),
                self@ == old(self)@,
                is_partition(self@),
                n == self@.len(),
                x <= n,
                g@.len() == n,
                forall|r: int, a: int|
                    0 <= r < n && 0 <= a < g@[r]@.len() ==> #[trigger] g@[r]@[a] < x && self@[g@[r]@[a] as int]
                        == r,
                forall|y: int| 0 <= y < x ==> g@[#[trigger] self@[y] as int]@.contains(y as usize),
                forall|r: int, a: int, b: int|
                    0 <= r < n && 0 <= a < b < g@[r]@.len() ==> #[trigger] g@[r]@[a] < #[trigger] g@[r]@[b],
            decreases n - x,
        {
            let r = self.find(x);
            let ghost before = g@;
            g[r].push(x);
            assert(g@[r as int]@ == before[r as int]@.push(x));
            assert forall|q: int| 0 <= q < n && q != r implies g@[q] == before[q] by {}
            assert forall|y: int| 0 <= y < x + 1 implies g@[#[trigger] self@[y] as int]@.contains(y as usize) by {
                if y < x {
                    assert(before[self@[y] as int]@.contains(y as usize));
                    let t = choose|t: int| 0 <= t < before[self@[y] as int]@.len() && before[self@[y] as int]@[t] == y as usize;
                    assert(g@[self@[y] as int]@[t] == y as usize);
                } else {
                    assert(g@[r as int]@[before[r as int]@.len() as int] == x);
                }
            }
            x = x + 1;
        }
        assert forall|r: int, y: int| 0 <= r < n && 0 <= y < n implies (#[trigger] g@[r]@.contains(y as usize) <==> old(
            self,
        )@[y] == r) by {
            if g@[r]@.contains(y as usize) {
                let t = choose|t: int| 0 <= t < g@[r]@.len() && g@[r]@[t] == y as usize;
                assert(self@[g@[r]@[t] as int] == r);
            }
            if old(self)@[y] == r {
                assert(g@[self@[y] as int]@.contains(y as usize));
            }
        }
        g
    }
}

} // verus!

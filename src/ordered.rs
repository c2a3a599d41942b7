use vstd::prelude::*;

verus! {

/// Entries `(value, node)` kept in order of value, each entry at most once;
/// an entry joins after those of equal value.
pub struct OrderedVec {
    items: Vec<(i32, usize)>,
}

/// Values do not decrease along `s`.
pub open spec fn sorted_by_value(s: Seq<(i32, usize)>) -> bool {
    forall|a: int, b: int| 0 <= a < b < s.len() ==> (#[trigger] s[a]).0 <= (#[trigger] s[b]).0
}

/// Values strictly increase along `s`.
pub open spec fn strictly_sorted(s: Seq<(i32, usize)>) -> bool {
    forall|a: int, b: int| 0 <= a < b < s.len() ==> (#[trigger] s[a]).0 < (#[trigger] s[b]).0
}

impl View for OrderedVec {
    type V = Seq<(i32, usize)>;

    closed spec fn view(&self) -> Seq<(i32, usize)> {
        self.items@
    }
}

impl OrderedVec {
    pub open spec fn wf(&self) -> bool {
        &&& sorted_by_value(self@)
        &&& self@.no_duplicates()
    }

    pub fn new() -> (v: OrderedVec)
        ensures
            v.wf(),
            v@.len() == 0,
    {
        OrderedVec { items: Vec::new() }
    }

    /// Adds `v` after every entry whose value is not larger, unless `v` is
    /// there already.
    pub fn insert(&mut self, v: (i32, usize))
        requires
            old(self).wf(),
        ensures
            final(self).wf(),
            old(self)@.contains(v) ==> final(self)@ == old(self)@,
            !old(self)@.contains(v) ==> exists|i: int|
                0 <= i <= old(self)@.len() && final(self)@ == old(self)@.insert(i, v) && (forall|t: int|
                    0 <= t < i ==> (#[trigger] old(self)@[t]).0 <= v.0) && (forall|t: int|
                    i <= t < old(self)@.len() ==> (#[trigger] old(self)@[t]).0 > v.0),
            final(self)@.contains(v),
            forall|t: int| 0 <= t < old(self)@.len() ==> final(self)@.contains(#[trigger] old(self)@[t]),
            forall|t: int|
                0 <= t < final(self)@.len() ==> #[trigger] final(self)@[t] == v || old(self)@.contains(
                    final(self)@[t],
                ),
    {
        let len = self.items.len();
        let mut i: usize = 0;
        while i < len
            invariant
                self.wf(),
                self@ == old(self)@,
                len == self@.len(),
                i <= len,
                forall|t: int| 0 <= t < i ==> (#[trigger] self@[t]).0 <= v.0 && self@[t] != v,
            decreases len - i,
        {
            if self.items[i].0 == v.0 && self.items[i].1 == v.1 {
                assert(self@[i as int] == v);
                assert forall|t: int| 0 <= t < self@.len() implies self@.contains(#[trigger] self@[t]) by {}
                return;
            }
            if self.items[i].0 > v.0 {
                assert(!self@.contains(v)) by {
                    assert forall|t: int| 0 <= t < self@.len() implies #[trigger] self@[t] != v by {
                        if t >= i {
                            assert(self@[i as int].0 <= self@[t].0);
                        }
                    }
                }
                assert forall|t: int| i <= t < len implies (#[trigger] self@[t]).0 > v.0 by {
                    assert(self@[i as int].0 <= self@[t].0);
                }
                self.items.insert(i, v);
                assert(self@[i as int] == v);
                assert forall|t: int| 0 <= t < old(self)@.len() implies self@.contains(
                    #[trigger] old(self)@[t],
                ) by {
                    if t < i {
                        assert(self@[t] == old(self)@[t]);
                    } else {
                        assert(self@[t + 1] == old(self)@[t]);
                    }
                }
                assert forall|t: int| 0 <= t < self@.len() && #[trigger] self@[t] != v implies old(
                    self,
                )@.contains(self@[t]) by {
                    if t < i {
                        assert(self@[t] == old(self)@[t]);
                    } else {
                        assert(self@[t] == old(self)@[t - 1]);
                    }
                }
                return;
            }
            i = i + 1;
        }
        assert(!self@.contains(v));
        self.items.push(v);
        assert(self@ == old(self)@.insert(len as int, v));
        assert(self@[len as int] == v);
        assert forall|t: int| 0 <= t < old(self)@.len() implies self@.contains(
            #[trigger] old(self)@[t],
        ) by {
            assert(self@[t] == old(self)@[t]);
        }
        assert forall|t: int| 0 <= t < self@.len() && #[trigger] self@[t] != v implies old(
            self,
        )@.contains(self@[t]) by {
            assert(self@[t] == old(self)@[t]);
        }
    }

    pub fn len(&self) -> (n: usize)
        ensures
            n == self@.len(),
    {
        self.items.len()
    }

    pub fn get(&self, t: usize) -> (e: (i32, usize))
        requires
            t < self@.len(),
        ensures
            e == self@[t as int],
    {
        self.items[t]
    }
}

} // verus!

use vstd::prelude::*;

use crate::graph::eq_is_structural;
use crate::measure::Measure;

verus! {

/// An entry for `n` is queued in the entry sequence `s`.
pub open spec fn holds_node<N, D>(s: Seq<(N, D)>, n: N) -> bool {
    exists|j: int| 0 <= j < s.len() && (#[trigger] s[j]).0 == n
}

/// No node is queued twice in the entry sequence `s`.
pub open spec fn distinct_keys<N, D>(s: Seq<(N, D)>) -> bool {
    forall|a: int, b: int| #![trigger s[a], s[b]] 0 <= a < b < s.len() ==> s[a].0 != s[b].0
}

/// The open set of a best-first search: nodes awaiting exploration, each with
/// the priority it was queued at. A node appears at most one time when fed
/// only through `push_improve`; `pop` removes an entry with the least
/// priority, so stale, worse entries never accumulate. The view is the
/// sequence of queued entries.
pub struct Frontier<N, D> {
    entries: Vec<(N, D)>,
}

impl<N: Copy + PartialEq, D: Measure> Frontier<N, D> {
    pub fn new() -> (f: Self)
        ensures
            f@ =~= Seq::<(N, D)>::empty(),
    {
        Frontier { entries: Vec::new() }
    }

    /// Queue `node` at priority `prio`; if it is already queued, keep the
    /// better (smaller) of the two priorities.
    pub fn push_improve(&mut self, node: N, prio: D)
        requires
            eq_is_structural::<N>(),
        ensures
            forall|x: (N, D)|
                #[trigger] final(self)@.contains(x) ==> old(self)@.contains(x) || x == (
                node,
                prio,
                ),
            final(self)@.len() <= old(self)@.len() + 1,
            holds_node(final(self)@, node),
            forall|n: N| #[trigger] holds_node(old(self)@, n) ==> holds_node(final(self)@, n),
            distinct_keys(old(self)@) ==> distinct_keys(final(self)@) && (forall|x: (N, D)|
                #[trigger] final(self)@.contains(x) && x.0 == node ==> x.1.value()
                    <= prio.value()),
    {
        let ghost orig = self@;
        let mut i: usize = 0;
        while i < self.entries.len()
            invariant
                eq_is_structural::<N>(),
                orig == old(self)@,
                self@ == orig,
                i <= self.entries.len(),
                forall|j: int| 0 <= j < i ==> (#[trigger] self@[j]).0 != node,
            decreases self.entries.len() - i,
        {
            if self.entries[i].0 == node {
                if prio.le(&self.entries[i].1) {
                    self.entries.set(i, (node, prio));
                }
                proof {
                    assert(self@[i as int].0 == node);
                    assert(holds_node(self@, node));
                    assert forall|n: N| #[trigger] holds_node(orig, n) implies holds_node(
                        self@,
                        n,
                    ) by {
                        let j = choose|j: int| 0 <= j < orig.len() && orig[j].0 == n;
                        if j == i {
                            assert(self@[i as int].0 == node);
                        } else {
                            assert(self@[j].0 == n);
                        }
                    }
                    assert forall|x: (N, D)| #[trigger] self@.contains(x) implies orig.contains(x)
                        || x == (node, prio) by {
                        let j = choose|j: int| 0 <= j < self@.len() && self@[j] == x;
                        if self@[j] == orig[j] {
                            assert(orig.contains(x));
                        } else {
                            assert(self@[j] == (node, prio));
                        }
                    }
                    if distinct_keys(orig) {
                        assert forall|a: int, b: int|
                            #![trigger self@[a], self@[b]]
                            0 <= a < b < self@.len() implies self@[a].0 != self@[b].0 by {
                            assert(self@[a].0 == orig[a].0);
                            assert(self@[b].0 == orig[b].0);
                        }
                        assert forall|x: (N, D)|
                            #[trigger] self@.contains(x) && x.0 == node implies x.1.value()
                            <= prio.value() by {
                            let j = choose|j: int| 0 <= j < self@.len() && self@[j] == x;
                            if j != i {
                                assert(orig[j].0 == node);
                                assert(orig[i as int].0 == node);
                                assert(false);
                            }
                        }
                    }
                }
                return ;
            }
            i = i + 1;
        }
        self.entries.push((node, prio));
        proof {
            assert forall|x: (N, D)| #[trigger] self@.contains(x) implies orig.contains(x) || x
                == (node, prio) by {
                let j = choose|j: int| 0 <= j < self@.len() && self@[j] == x;
                if j < orig.len() {
                    assert(orig[j] == x);
                }
            }
            assert(self@[self@.len() - 1].0 == node);
            assert(holds_node(self@, node));
            assert forall|n: N| #[trigger] holds_node(orig, n) implies holds_node(self@, n) by {
                let j = choose|j: int| 0 <= j < orig.len() && orig[j].0 == n;
                assert(self@[j].0 == n);
            }
            if distinct_keys(orig) {
                assert forall|a: int, b: int|
                    #![trigger self@[a], self@[b]]
                    0 <= a < b < self@.len() implies self@[a].0 != self@[b].0 by {
                    if b == self@.len() - 1 {
                        assert(self@[a] == orig[a]);
                        assert(orig[a].0 != node);
                    } else {
                        assert(self@[a] == orig[a]);
                        assert(self@[b] == orig[b]);
                    }
                }
                assert forall|x: (N, D)| #[trigger] self@.contains(x) && x.0 == node implies
                x.1.value() <= prio.value() by {
                    let j = choose|j: int| 0 <= j < self@.len() && self@[j] == x;
                    if j < orig.len() {
                        assert(orig[j].0 == node);
                        assert(false);
                    }
                }
            }
        }
    }

    /// Remove and return an entry with the least priority, or report that the
    /// frontier is exhausted.
    pub fn pop(&mut self) -> (r: Option<(N, D)>)
        ensures
            match r {
                None => old(self)@.len() == 0 && final(self)@ == old(self)@,
                Some(x) => {
                    &&& final(self)@.len() == old(self)@.len() - 1
                    &&& old(self)@.contains(x)
                    &&& distinct_keys(old(self)@) ==> distinct_keys(final(self)@)
                    &&& forall|n: N|
                        #[trigger] holds_node(old(self)@, n) && n != x.0 ==> holds_node(
                            final(self)@,
                            n,
                        )
                    &&& forall|y: (N, D)|
                        #[trigger] final(self)@.contains(y) ==> old(self)@.contains(y)
                    &&& forall|j: int|
                        0 <= j < old(self)@.len() ==> x.1.value() <= (#[trigger] old(
                            self,
                        )@[j]).1.value()
                },
            },
    {
        let ghost orig = self@;
        if self.entries.len() == 0 {
            return None;
        }
        let mut best: usize = 0;
        let mut i: usize = 1;
        while i < self.entries.len()
            invariant
                orig == old(self)@,
                self@ == orig,
                best < self.entries@.len(),
                i <= self.entries@.len(),
                forall|j: int|
                    0 <= j < i ==> self@[best as int].1.value() <= (#[trigger] self@[j]).1.value(),
            decreases self.entries@.len() - i,
        {
            if self.entries[i].1.le(&self.entries[best].1) {
                best = i;
            }
            i = i + 1;
        }
        let x = self.entries.swap_remove(best);
        proof {
            assert(orig.contains(x)) by {
                assert(orig[best as int] == x);
            }
            assert forall|y: (N, D)| #[trigger] self@.contains(y) implies orig.contains(y) by {
                let j = choose|j: int| 0 <= j < self@.len() && self@[j] == y;
                if j == best {
                    assert(orig[orig.len() - 1] == y);
                } else {
                    assert(orig[j] == y);
                }
            }
            assert forall|n: N| #[trigger] holds_node(orig, n) && n != x.0 implies holds_node(
                self@,
                n,
            ) by {
                let j = choose|j: int| 0 <= j < orig.len() && orig[j].0 == n;
                if j == best {
                    assert(false);
                } else if j == orig.len() - 1 {
                    assert(self@[best as int].0 == n);
                } else {
                    assert(self@[j].0 == n);
                }
            }
            if distinct_keys(orig) {
                assert forall|a: int, b: int|
                    #![trigger self@[a], self@[b]]
                    0 <= a < b < self@.len() implies self@[a].0 != self@[b].0 by {
                    if a == best {
                        assert(self@[a] == orig[orig.len() - 1]);
                        assert(self@[b] == orig[b]);
                    } else if b == best {
                        assert(self@[a] == orig[a]);
                        assert(self@[b] == orig[orig.len() - 1]);
                    } else {
                        assert(self@[a] == orig[a]);
                        assert(self@[b] == orig[b]);
                    }
                }
            }
        }
        Some(x)
    }
}

impl<N, D> View for Frontier<N, D> {
    type V = Seq<(N, D)>;

    closed spec fn view(&self) -> Seq<(N, D)> {
        self.entries@
    }
}

} // verus!

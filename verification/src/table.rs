use vstd::prelude::*;

use crate::graph::eq_is_structural;

verus! {

/// The binding for `k` in the pair sequence `s`: the value of the latest
/// pair whose key is `k`, if any.
pub open spec fn lookup<K, V>(s: Seq<(K, V)>, k: K) -> Option<V>
    decreases s.len(),
{
    if s.len() == 0 {
        None
    } else if s.last().0 == k {
        Some(s.last().1)
    } else {
        lookup(s.drop_last(), k)
    }
}

/// Whether `k` is bound in the pair sequence `s`.
pub open spec fn has_key<K, V>(s: Seq<(K, V)>, k: K) -> bool {
    lookup(s, k) is Some
}

/// Appending a pair binds its key and leaves every other key alone.
pub broadcast proof fn lemma_lookup_push<K, V>(s: Seq<(K, V)>, k: K, v: V, q: K)
    ensures
        #[trigger] lookup(s.push((k, v)), q) == (if q == k {
            Some(v)
        } else {
            lookup(s, q)
        }),
{
    assert(s.push((k, v)).drop_last() =~= s);
    assert(s.push((k, v)).last() == (k, v));
}

/// Rewriting the latest pair bound to `k` in place rebinds `k` and leaves
/// every other key alone.
pub proof fn lemma_lookup_update<K, V>(s: Seq<(K, V)>, i: int, k: K, v: V, q: K)
    requires
        0 <= i < s.len(),
        s[i].0 == k,
        forall|j: int| i < j < s.len() ==> (#[trigger] s[j]).0 != k,
    ensures
        lookup(s.update(i, (k, v)), q) == (if q == k {
            Some(v)
        } else {
            lookup(s, q)
        }),
    decreases s.len(),
{
    let t = s.update(i, (k, v));
    if i == s.len() - 1 {
        assert(t.last() == (k, v));
        assert(t.drop_last() =~= s.drop_last());
    } else {
        assert(t.last() == s.last());
        assert(s.last().0 != k);
        assert(t.drop_last() =~= s.drop_last().update(i, (k, v)));
        assert forall|j: int| i < j < s.drop_last().len() implies (#[trigger] s.drop_last()[j]).0
            != k by {
            assert(s.drop_last()[j] == s[j]);
        }
        lemma_lookup_update(s.drop_last(), i, k, v, q);
    }
}

/// A small map from keys to values, kept as the sequence of insertions; the
/// latest binding for a key wins. The view is that sequence, read through
/// `lookup` and `has_key`. It asks nothing of the key type beyond a
/// well-behaved equality, so it serves for any node type of a `VGraph`.
pub struct Table<K, V> {
    pairs: Vec<(K, V)>,
}

impl<K: Copy + PartialEq, V: Copy> Table<K, V> {
    pub fn new() -> (t: Self)
        ensures
            t@ =~= Seq::<(K, V)>::empty(),
    {
        Table { pairs: Vec::new() }
    }

    pub fn insert(&mut self, k: K, v: V)
        ensures
            final(self)@ == old(self)@.push((k, v)),
    {
        self.pairs.push((k, v));
    }

    /// Bind `k` to `v`, rewriting its latest binding in place when one
    /// exists, so that a map fed only through `upsert` stays one pair per key.
    pub fn upsert(&mut self, k: K, v: V)
        requires
            eq_is_structural::<K>(),
        ensures
            forall|q: K|
                #[trigger] lookup(final(self)@, q) == (if q == k {
                    Some(v)
                } else {
                    lookup(old(self)@, q)
                }),
            has_key(old(self)@, k) ==> exists|j: int|
                0 <= j < old(self)@.len() && (#[trigger] old(self)@[j]).0 == k && lookup(
                    old(self)@,
                    k,
                ) == Some(old(self)@[j].1) && final(self)@ == old(self)@.update(j, (k, v)),
            !has_key(old(self)@, k) ==> final(self)@ == old(self)@.push((k, v)),
    {
        let mut i: usize = self.pairs.len();
        proof {
            assert(self@.take(i as int) =~= self@);
        }
        while i > 0
            invariant
                eq_is_structural::<K>(),
                i <= self.pairs.len(),
                self@ == old(self)@,
                lookup(self@, k) == lookup(self@.take(i as int), k),
                forall|j: int| i <= j < self@.len() ==> (#[trigger] self@[j]).0 != k,
            decreases i,
        {
            i = i - 1;
            let hit = self.pairs[i].0 == k;
            proof {
                assert(self@.take(i + 1).drop_last() =~= self@.take(i as int));
                assert(self@.take(i + 1).last() == self@[i as int]);
            }
            if hit {
                let ghost pre = self@;
                proof {
                    assert(lookup(pre, k) == Some(pre[i as int].1));
                }
                self.pairs.set(i, (k, v));
                proof {
                    assert forall|q: K|
                        #[trigger] lookup(self@, q) == (if q == k {
                            Some(v)
                        } else {
                            lookup(pre, q)
                        }) by {
                        lemma_lookup_update(pre, i as int, k, v, q);
                    }
                }
                return ;
            }
        }
        proof {
            assert(self@.take(0) =~= Seq::<(K, V)>::empty());
            assert(!has_key(self@, k));
        }
        let ghost pre = self@;
        self.pairs.push((k, v));
        proof {
            assert forall|q: K|
                #[trigger] lookup(self@, q) == (if q == k {
                    Some(v)
                } else {
                    lookup(pre, q)
                }) by {
                lemma_lookup_push(pre, k, v, q);
            }
        }
    }

    pub fn get(&self, k: &K) -> (r: Option<V>)
        requires
            eq_is_structural::<K>(),
        ensures
            r == lookup(self@, *k),
    {
        let mut i: usize = self.pairs.len();
        proof {
            assert(self@.take(i as int) =~= self@);
        }
        while i > 0
            invariant
                eq_is_structural::<K>(),
                i <= self.pairs.len(),
                lookup(self@, *k) == lookup(self@.take(i as int), *k),
            decreases i,
        {
            i = i - 1;
            let hit = self.pairs[i].0 == *k;
            proof {
                assert(self@.take(i + 1).drop_last() =~= self@.take(i as int));
                assert(self@.take(i + 1).last() == self@[i as int]);
            }
            if hit {
                return Some(self.pairs[i].1);
            }
        }
        proof {
            assert(self@.take(0) =~= Seq::<(K, V)>::empty());
        }
        None
    }

    pub fn contains_key(&self, k: &K) -> (r: bool)
        requires
            eq_is_structural::<K>(),
        ensures
            r == has_key(self@, *k),
    {
        self.get(k).is_some()
    }
}

impl<K, V> View for Table<K, V> {
    type V = Seq<(K, V)>;

    closed spec fn view(&self) -> Seq<(K, V)> {
        self.pairs@
    }
}

} // verus!

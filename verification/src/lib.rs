mod frontier;
mod graph;
mod measure;
mod sample;
mod table;

pub use graph::{
    VGraph, closed_under_edges, connects, cost_fits, distinct_nodes, eq_is_structural, is_path,
    lemma_single_node_path_cost, lemma_unreachable_outside_closed_set, path_cost, reachable,
};
pub use measure::Measure;
pub use sample::{Cycles, Ex, RingPuzzle, State};

use std::collections::VecDeque;
use std::hash::Hash;
use vstd::prelude::*;

use crate::frontier::{Frontier, distinct_keys, holds_node};
use crate::table::{Table, has_key, lemma_lookup_push, lookup};

verus! {

broadcast use lemma_lookup_push;

/// The caller's state space has a finite region that contains `start` and is
/// closed under edges; every search from `start` stays inside it. This is
/// what lets the searches promise termination on cyclic graphs.
pub open spec fn finitely_explorable<G: VGraph>(g: &G, start: G::Node) -> bool {
    exists|s: Set<G::Node>|
        s.finite() && s.contains(start) && #[trigger] closed_under_edges(g, s)
}

/// `n` has been found by the search: it is the start or it has a predecessor.
spec fn discovered<K>(prevs: Seq<(K, K)>, start: K, n: K) -> bool {
    n == start || has_key(prevs, n)
}

/// The set of discovered nodes.
spec fn discovered_set<K>(prevs: Seq<(K, K)>, start: K) -> Set<K> {
    Set::new(|n: K| discovered(prevs, start, n))
}

/// The predecessor map is a well-formed record of a search from `start`:
/// the start has no predecessor, and every recorded predecessor is itself a
/// discovered node with an edge to the node it precedes. Walking such a map
/// backward can only stop at `start`.
spec fn prev_map_wf<G: VGraph>(g: &G, prevs: Seq<(G::Node, G::Node)>, start: G::Node) -> bool {
    &&& !has_key(prevs, start)
    &&& forall|n: G::Node|
        #[trigger] lookup(prevs, n) matches Some(v) ==> g.spec_out_edges(v).contains(n)
            && discovered(prevs, start, v)
}

/// Lexicographic order on rank pairs.
spec fn rank_lt(a: (nat, nat), b: (nat, nat)) -> bool {
    a.0 < b.0 || (a.0 == b.0 && a.1 < b.1)
}

/// `rank` certifies that the predecessor map is acyclic: each predecessor
/// chain strictly descends in rank, so walking it backward terminates.
spec fn chain_ranked<A>(prevs: Seq<(A, A)>, rank: Map<A, (nat, nat)>) -> bool {
    forall|n: A|
        #[trigger] lookup(prevs, n) matches Some(v) ==> rank.dom().contains(n)
            && rank.dom().contains(v) && rank_lt(rank[v], rank[n])
}

/// `n` has been taken off the frontier and fully expanded without being the
/// goal: it is not `end`, and all its successors have been discovered.
spec fn bfs_settled<G: VGraph>(
    g: &G,
    prevs: Seq<(G::Node, G::Node)>,
    level: Map<G::Node, nat>,
    start: G::Node,
    end: G::Node,
    n: G::Node,
) -> bool {
    &&& n != end
    &&& forall|m: G::Node|
        #[trigger] g.spec_out_edges(n).contains(m) ==> discovered(prevs, start, m) && level[m]
            <= level[n] + 1
}

/// Ranks strictly grow along a reconstructed chain.
proof fn lemma_chain_rank_increases<A>(
    prevs: Seq<(A, A)>,
    rank: Map<A, (nat, nat)>,
    p: Seq<A>,
    i: int,
    j: int,
)
    requires
        chain_ranked(prevs, rank),
        forall|k: int| 0 < k < p.len() ==> lookup(prevs, #[trigger] p[k]) == Some(p[k - 1]),
        0 <= i < j < p.len(),
    ensures
        rank_lt(rank[p[i]], rank[p[j]]),
    decreases j - i,
{
    assert(lookup(prevs, p[j]) == Some(p[j - 1]));
    if i < j - 1 {
        lemma_chain_rank_increases(prevs, rank, p, i, j - 1);
    }
}

/// A predecessor chain certified by a rank never revisits a node: the
/// reconstructed path is simple.
proof fn lemma_chain_distinct<A>(prevs: Seq<(A, A)>, rank: Map<A, (nat, nat)>, p: Seq<A>)
    requires
        chain_ranked(prevs, rank),
        forall|k: int| 0 < k < p.len() ==> lookup(prevs, #[trigger] p[k]) == Some(p[k - 1]),
    ensures
        distinct_nodes(p),
{
    assert forall|i: int, j: int| #![trigger p[i], p[j]] 0 <= i < j < p.len() implies p[i]
        != p[j] by {
        lemma_chain_rank_increases(prevs, rank, p, i, j);
    }
}

/// A chain reconstructed from a well-formed predecessor map is a real path in
/// the graph from `start` to its final node.
proof fn lemma_backtrack_path<G: VGraph>(
    g: &G,
    prevs: Seq<(G::Node, G::Node)>,
    start: G::Node,
    p: Seq<G::Node>,
)
    requires
        prev_map_wf(g, prevs, start),
        p.len() >= 1,
        !has_key(prevs, p[0]),
        forall|i: int| 0 < i < p.len() ==> lookup(prevs, #[trigger] p[i]) == Some(p[i - 1]),
        discovered(prevs, start, p.last()),
    ensures
        connects(g, p, start, p.last()),
{
    if p.len() == 1 {
        assert(p[0] == start);
    } else {
        assert(lookup(prevs, p[1]) == Some(p[0]));
        assert(discovered(prevs, start, p[0]));
        assert(p[0] == start);
    }
    assert forall|i: int| 0 <= i < p.len() - 1 implies (#[trigger] g.spec_out_edges(p[i])).contains(
        p[i + 1],
    ) by {
        assert(lookup(prevs, p[i + 1]) == Some(p[i]));
    }
}

/// Along a reconstructed chain, each node's level is its index.
proof fn lemma_chain_level_is_index<A>(
    prevs: Seq<(A, A)>,
    level: Map<A, nat>,
    p: Seq<A>,
    start: A,
    i: int,
)
    requires
        forall|n: A| #[trigger] lookup(prevs, n) matches Some(v) ==> level[n] == level[v] + 1,
        forall|k: int| 0 < k < p.len() ==> lookup(prevs, #[trigger] p[k]) == Some(p[k - 1]),
        p.len() >= 1,
        p[0] == start,
        level[start] == 0,
        0 <= i < p.len(),
    ensures
        level[p[i]] == i,
    decreases i,
{
    if i > 0 {
        assert(lookup(prevs, p[i]) == Some(p[i - 1]));
        lemma_chain_level_is_index(prevs, level, p, start, i - 1);
    }
}

/// When the goal leaves the frontier, no walk from the start reaches it in
/// fewer steps than its level: the walk is cut either by the frontier, whose
/// levels are no smaller than the goal's, or by the goal itself.
proof fn lemma_bfs_minimal<G: VGraph>(
    g: &G,
    prevs: Seq<(G::Node, G::Node)>,
    qs: Seq<G::Node>,
    level: Map<G::Node, nat>,
    start: G::Node,
    end: G::Node,
    path: Seq<G::Node>,
    i: int,
)
    requires
        connects(g, path, start, end),
        0 <= i < path.len(),
        discovered(prevs, start, path[i]),
        level[path[i]] <= i,
        forall|j: int| 0 <= j < qs.len() ==> level[end] <= level[#[trigger] qs[j]],
        forall|n: G::Node|
            #[trigger] discovered(prevs, start, n) ==> qs.contains(n) || bfs_settled(
                g,
                prevs,
                level,
                start,
                end,
                n,
            ) || n == end,
    ensures
        level[end] <= path.len() - 1,
    decreases path.len() - i,
{
    let x = path[i];
    if x == end {
        assert(level[end] <= i);
    } else if qs.contains(x) {
        let j = choose|j: int| 0 <= j < qs.len() && qs[j] == x;
        assert(level[end] <= level[qs[j]]);
    } else {
        assert(bfs_settled(g, prevs, level, start, end, x));
        assert(i < path.len() - 1) by {
            assert(path[path.len() - 1] == end);
        }
        assert(g.spec_out_edges(path[i]).contains(path[i + 1]));
        lemma_bfs_minimal(g, prevs, qs, level, start, end, path, i + 1);
    }
}

/// Given a predecessor map, walks backward from `end` until a node without a
/// predecessor is found, then returns the chain in forward order, ending at
/// `end`. The ghost `rank` certifies that the walk descends and so ends.
fn back_track<A: Copy + Eq + Hash>(prev: &Table<A, A>, end: A, rank: Ghost<Map<A, (nat, nat)>>) -> (p:
    Vec<A>)
    requires
        eq_is_structural::<A>(),
        chain_ranked(prev@, rank@),
    ensures
        p@.len() >= 1,
        p@.last() == end,
        !has_key(prev@, p@[0]),
        forall|i: int| 0 < i < p@.len() ==> lookup(prev@, #[trigger] p@[i]) == Some(p@[i - 1]),
        distinct_nodes(p@),
{
    let mut rpath: Vec<A> = Vec::new();
    let mut cur = end;
    loop
        invariant
            eq_is_structural::<A>(),
            chain_ranked(prev@, rank@),
            rpath@.len() == 0 ==> cur == end,
            rpath@.len() >= 1 ==> rpath@[0] == end && lookup(prev@, rpath@.last()) == Some(cur),
            forall|i: int|
                0 < i < rpath@.len() ==> lookup(prev@, #[trigger] rpath@[i - 1]) == Some(
                    rpath@[i],
                ),
        ensures
            !has_key(prev@, cur),
            rpath@.len() == 0 ==> cur == end,
            rpath@.len() >= 1 ==> rpath@[0] == end && lookup(prev@, rpath@.last()) == Some(cur),
            forall|i: int|
                0 < i < rpath@.len() ==> lookup(prev@, #[trigger] rpath@[i - 1]) == Some(
                    rpath@[i],
                ),
        decreases rank@[cur].0, rank@[cur].1,
    {
        match prev.get(&cur) {
            None => { break ; },
            Some(nxt) => {
                rpath.push(cur);
                cur = nxt;
            },
        }
    }
    rpath.push(cur);
    let ghost chain = rpath@;
    proof {
        assert(chain[0] == end);
        assert(chain.last() == cur);
        assert forall|i: int| 0 < i < chain.len() implies lookup(prev@, #[trigger] chain[i - 1])
            == Some(chain[i]) by {
            if i < chain.len() - 1 {
                assert(chain[i - 1] == rpath@[i - 1]);
            }
        }
    }
    let n = rpath.len();
    let mut p: Vec<A> = Vec::new();
    let mut i: usize = n;
    while i > 0
        invariant
            n == rpath@.len(),
            rpath@ == chain,
            i <= n,
            p@.len() == n - i,
            forall|j: int| 0 <= j < p@.len() ==> #[trigger] p@[j] == chain[n - 1 - j],
        decreases i,
    {
        i = i - 1;
        p.push(rpath[i]);
    }
    proof {
        assert(p@[0] == chain[n - 1]);
        assert(p@.last() == chain[0]);
        assert forall|i2: int| 0 < i2 < p@.len() implies lookup(prev@, #[trigger] p@[i2]) == Some(
            p@[i2 - 1],
        ) by {
            assert(p@[i2] == chain[n - 1 - i2]);
            assert(p@[i2 - 1] == chain[n - i2]);
            assert(lookup(prev@, chain[n - i2 - 1]) == Some(chain[n - i2]));
        }
        lemma_chain_distinct(prev@, rank@, p@);
    }
    p
}

/// The nodes that best-first search has assigned a distance, plus the start.
spec fn reached_set<K, D>(dists: Seq<(K, D)>, start: K) -> Set<K> {
    Set::new(|n: K| n == start || has_key(dists, n))
}

/// The sum of the distance values stored in a map's pairs. Strict relaxation
/// makes it shrink, which is what bounds the best-first search loop.
spec fn potential<K, D: Measure>(s: Seq<(K, D)>) -> int
    decreases s.len(),
{
    if s.len() == 0 {
        0
    } else {
        potential(s.drop_last()) + s.last().1.value()
    }
}

proof fn lemma_potential_update<K, D: Measure>(s: Seq<(K, D)>, i: int, p: (K, D))
    requires
        0 <= i < s.len(),
    ensures
        potential(s.update(i, p)) == potential(s) - s[i].1.value() + p.1.value(),
    decreases s.len(),
{
    let t = s.update(i, p);
    if i == s.len() - 1 {
        assert(t.drop_last() =~= s.drop_last());
        assert(t.last() == p);
    } else {
        assert(t.last() == s.last());
        assert(t.drop_last() =~= s.drop_last().update(i, p));
        lemma_potential_update(s.drop_last(), i, p);
        assert(s.drop_last()[i] == s[i]);
    }
}

proof fn lemma_potential_nonneg<K, D: Measure>(s: Seq<(K, D)>)
    requires
        forall|j: int| 0 <= j < s.len() ==> (#[trigger] s[j]).1.value() >= 0,
    ensures
        potential(s) >= 0,
    decreases s.len(),
{
    if s.len() > 0 {
        assert forall|j: int| 0 <= j < s.drop_last().len() implies (#[trigger] s.drop_last()[j]).1.value()
            >= 0 by {
            assert(s.drop_last()[j] == s[j]);
        }
        lemma_potential_nonneg(s.drop_last());
        assert(s.last() == s[s.len() - 1]);
    }
}

/// Unweighted shortest-path search by breadth-first exploration.
///
/// Returns a path from `start` to `end` exactly when one exists in `g`, and
/// that path has the fewest edges among all paths between the two. The
/// search discovers each node at most one time, so it explores a finite
/// region once and terminates even when the graph has cycles; the caller
/// vouches through `finitely_explorable` that the region around `start` is
/// finite. When the start is the end, the single-node path comes back without
/// any exploration.
#[verifier::rlimit(60)]
pub fn breadth_first_search<G>(g: G, start: G::Node, end: G::Node) -> (r: Option<Vec<G::Node>>) where
    G: VGraph,
    G::Node: Eq + Hash + Copy,

    requires
        eq_is_structural::<G::Node>(),
        finitely_explorable(&g, start),
    ensures
        r matches Some(p) ==> connects(&g, p@, start, end) && distinct_nodes(p@),
        r matches Some(p) ==> forall|q: Seq<G::Node>|
            connects(&g, q, start, end) ==> p@.len() <= q.len(),
        r is Some <==> reachable(&g, start, end),
        start == end ==> (r matches Some(p) && p@ == seq![start]),
{
    if start == end {
        let mut p: Vec<G::Node> = Vec::new();
        p.push(start);
        proof {
            assert(p@ =~= seq![start]);
            assert(connects(&g, p@, start, end));
            assert(reachable(&g, start, end));
            assert forall|q: Seq<G::Node>| connects(&g, q, start, end) implies p@.len()
                <= q.len() by {}
        }
        return Some(p);
    }
    let ghost bound = choose|s: Set<G::Node>|
        s.finite() && s.contains(start) && #[trigger] closed_under_edges(&g, s);
    let mut to_explore: VecDeque<G::Node> = VecDeque::new();
    to_explore.push_back(start);
    let mut prev: Table<G::Node, G::Node> = Table::new();
    let ghost mut rank: Map<G::Node, (nat, nat)> = Map::empty().insert(start, (0, 0));
    let ghost mut stamp: nat = 1;
    let ghost mut level: Map<G::Node, nat> = Map::empty().insert(start, 0);
    proof {
        assert(to_explore@[0] == start);
        assert(to_explore@.contains(start));
        assert(forall|n: G::Node| #[trigger] discovered(prev@, start, n) ==> n == start);
        assert(level[start] == 0);
    }

    loop
        invariant
            eq_is_structural::<G::Node>(),
            start != end,
            bound.finite(),
            bound.contains(start),
            closed_under_edges(&g, bound),
            discovered_set(prev@, start) <= bound,
            prev_map_wf(&g, prev@, start),
            chain_ranked(prev@, rank),
            forall|n: G::Node| #[trigger] discovered(prev@, start, n) ==> rank.dom().contains(n),
            forall|n: G::Node|
                #[trigger] rank.dom().contains(n) ==> discovered(prev@, start, n) && rank[n].0 == 0
                    && rank[n].1 < stamp,
            level.dom().contains(start),
            level[start] == 0,
            forall|n: G::Node| #[trigger] discovered(prev@, start, n) ==> level.dom().contains(n),
            forall|n: G::Node|
                #[trigger] lookup(prev@, n) matches Some(v) ==> level[n] == level[v] + 1,
            forall|i2: int, j2: int|
                #![trigger level[to_explore@[i2]], level[to_explore@[j2]]]
                0 <= i2 <= j2 < to_explore@.len() ==> level[to_explore@[i2]]
                    <= level[to_explore@[j2]],
            forall|i2: int, j2: int|
                #![trigger level[to_explore@[i2]], level[to_explore@[j2]]]
                0 <= i2 < to_explore@.len() && 0 <= j2 < to_explore@.len() ==> level[to_explore@[i2]]
                    <= level[to_explore@[j2]] + 1,
            forall|n: G::Node, j2: int|
                #![trigger discovered(prev@, start, n), level[to_explore@[j2]]]
                discovered(prev@, start, n) && 0 <= j2 < to_explore@.len() ==> level[n]
                    <= level[to_explore@[j2]] + 1,
            forall|i: int|
                0 <= i < to_explore@.len() ==> discovered(prev@, start, #[trigger] to_explore@[i]),
            forall|n: G::Node|
                #[trigger] discovered(prev@, start, n) ==> to_explore@.contains(n) || bfs_settled(
                    &g,
                    prev@,
                    level,
                    start,
                    end,
                    n,
                ),
        decreases bound.difference(discovered_set(prev@, start)).len(), to_explore@.len(),
    {
        let ghost dset0 = discovered_set(prev@, start);
        let ghost q0 = to_explore@;
        let ghost q0len = to_explore@.len();
        let popped = to_explore.pop_front();
        match popped {
            None => {
                proof {
                    let s = discovered_set(prev@, start);
                    assert(s.contains(start));
                    assert(!s.contains(end)) by {
                        if discovered(prev@, start, end) {
                            assert(to_explore@.contains(end) || bfs_settled(
                                &g,
                                prev@,
                                level,
                                start,
                                end,
                                end,
                            ));
                        }
                    }
                    assert(closed_under_edges(&g, s)) by {
                        assert forall|n: G::Node, m: G::Node|
                            #[trigger] s.contains(n) && #[trigger] g.spec_out_edges(n).contains(m)
                            implies s.contains(m) by {
                            assert(discovered(prev@, start, n));
                            assert(bfs_settled(&g, prev@, level, start, end, n));
                        }
                    }
                    lemma_unreachable_outside_closed_set(&g, s, start, end);
                }
                return None;
            },
            Some(cur) => {
                if cur == end {
                    let p = back_track(&prev, cur, Ghost(rank));
                    proof {
                        lemma_backtrack_path(&g, prev@, start, p@);
                        assert(connects(&g, p@, start, end));
                        assert(reachable(&g, start, end));
                        assert(q0[0] == cur);
                        assert(p@[0] == start);
                        lemma_chain_level_is_index(prev@, level, p@, start, p@.len() - 1);
                        assert(level[end] == p@.len() - 1);
                        assert forall|j2: int| 0 <= j2 < to_explore@.len() implies level[end]
                            <= level[#[trigger] to_explore@[j2]] by {
                            assert(to_explore@[j2] == q0[j2 + 1]);
                            assert(level[q0[0]] <= level[q0[j2 + 1]]);
                        }
                        assert forall|n: G::Node| #[trigger] discovered(prev@, start, n) implies
                        to_explore@.contains(n) || bfs_settled(&g, prev@, level, start, end, n)
                            || n == end by {
                            if q0.contains(n) {
                                let j = choose|j: int| 0 <= j < q0.len() && q0[j] == n;
                                if j == 0 {
                                    assert(n == end);
                                } else {
                                    assert(to_explore@[j - 1] == n);
                                    assert(to_explore@.contains(n));
                                }
                            }
                        }
                        assert forall|q: Seq<G::Node>| connects(&g, q, start, end) implies p@.len()
                            <= q.len() by {
                            assert(q[0] == start);
                            assert(discovered(prev@, start, q[0]));
                            assert(level[q[0]] == 0);
                            lemma_bfs_minimal(&g, prev@, to_explore@, level, start, end, q, 0);
                        }
                    }
                    return Some(p);
                }
                let ghost prevpop = prev@;
                proof {
                    assert(discovered(prev@, start, cur)) by {
                        assert(q0[0] == cur);
                    }
                    assert forall|j2: int| 0 <= j2 < to_explore@.len() implies level[cur] <= level[
                        #[trigger] to_explore@[j2]
                    ] && level[to_explore@[j2]] <= level[cur] + 1 by {
                        assert(to_explore@[j2] == q0[j2 + 1]);
                        assert(level[q0[0]] <= level[q0[j2 + 1]]);
                        assert(level[q0[j2 + 1]] <= level[q0[0]] + 1);
                    }
                    assert forall|i2: int, j2: int|
                        #![trigger level[to_explore@[i2]], level[to_explore@[j2]]]
                        0 <= i2 <= j2 < to_explore@.len() implies level[to_explore@[i2]] <= level[
                        to_explore@[j2]
                    ] by {
                        assert(to_explore@[i2] == q0[i2 + 1]);
                        assert(to_explore@[j2] == q0[j2 + 1]);
                        assert(level[q0[i2 + 1]] <= level[q0[j2 + 1]]);
                    }
                    assert forall|n: G::Node| #[trigger] discovered(prev@, start, n) implies level[n]
                        <= level[cur] + 1 by {
                        assert(level[n] <= level[q0[0]] + 1);
                    }
                    assert forall|n: G::Node| #[trigger] discovered(prev@, start, n) implies
                    to_explore@.contains(n) || bfs_settled(&g, prev@, level, start, end, n) || n
                        == cur by {
                        if q0.contains(n) {
                            let j = choose|j: int| 0 <= j < q0.len() && q0[j] == n;
                            if j == 0 {
                                assert(n == cur);
                            } else {
                                assert(to_explore@[j - 1] == n);
                                assert(to_explore@.contains(n));
                            }
                        }
                    }
                }
                let nexts = g.out_edges(cur);
                let ghost mut grew: bool = false;
                let ghost mut fresh: G::Node = start;
                let mut i: usize = 0;
                while i < nexts.len()
                    invariant
                        eq_is_structural::<G::Node>(),
                        start != end,
                        cur != end,
                        bound.finite(),
                        bound.contains(start),
                        closed_under_edges(&g, bound),
                        discovered_set(prev@, start) <= bound,
                        nexts@ == g.spec_out_edges(cur),
                        i <= nexts@.len(),
                        prev_map_wf(&g, prev@, start),
                        chain_ranked(prev@, rank),
                        discovered(prev@, start, cur),
                        forall|n: G::Node|
                            #[trigger] discovered(prev@, start, n) ==> rank.dom().contains(n),
                        forall|n: G::Node|
                            #[trigger] rank.dom().contains(n) ==> discovered(prev@, start, n)
                                && rank[n].0 == 0 && rank[n].1 < stamp,
                        forall|j: int|
                            0 <= j < to_explore@.len() ==> discovered(
                                prev@,
                                start,
                                #[trigger] to_explore@[j],
                            ),
                        forall|j: int| 0 <= j < i ==> discovered(prev@, start, #[trigger] nexts@[j]),
                        level.dom().contains(start),
                        level[start] == 0,
                        forall|n: G::Node|
                            #[trigger] discovered(prev@, start, n) ==> level.dom().contains(n),
                        forall|n: G::Node|
                            #[trigger] lookup(prev@, n) matches Some(v) ==> level[n] == level[v]
                                + 1,
                        forall|i2: int, j2: int|
                            #![trigger level[to_explore@[i2]], level[to_explore@[j2]]]
                            0 <= i2 <= j2 < to_explore@.len() ==> level[to_explore@[i2]]
                                <= level[to_explore@[j2]],
                        forall|j2: int|
                            0 <= j2 < to_explore@.len() ==> level[cur] <= level[
                                #[trigger] to_explore@[j2]
                            ] && level[to_explore@[j2]] <= level[cur] + 1,
                        forall|n: G::Node|
                            #[trigger] discovered(prev@, start, n) ==> level[n] <= level[cur] + 1,
                        forall|n: G::Node|
                            #[trigger] discovered(prev@, start, n) ==> to_explore@.contains(n)
                                || bfs_settled(&g, prev@, level, start, end, n) || n == cur,
                        dset0 <= discovered_set(prev@, start),
                        !grew ==> prev@ == prevpop && to_explore@.len() == q0len - 1,
                        grew ==> discovered(prev@, start, fresh) && !dset0.contains(fresh),
                    decreases nexts@.len() - i,
                {
                    let next = nexts[i];
                    if next != start && !prev.contains_key(&next) {
                        let ghost prev0 = prev@;
                        let ghost qpre = to_explore@;
                        prev.insert(next, cur);
                        to_explore.push_back(next);
                        proof {
                            assert forall|q: G::Node| #[trigger] lookup(prev@, q) == (if q == next {
                                Some(cur)
                            } else {
                                lookup(prev0, q)
                            }) by {
                                lemma_lookup_push(prev0, next, cur, q);
                            }
                            rank = rank.insert(next, (0, stamp));
                            stamp = stamp + 1;
                            let ghost level0 = level;
                            level = level.insert(next, level0[cur] + 1);
                            if !grew {
                                grew = true;
                                fresh = next;
                            }
                            assert(cur != next);
                            assert forall|n: G::Node| #[trigger] discovered(prev0, start, n)
                                implies n != next && level[n] == level0[n] by {}
                            assert forall|n: G::Node| #[trigger] discovered(prev@, start, n)
                                implies rank.dom().contains(n) && level.dom().contains(n) by {
                                if n != next {
                                    assert(discovered(prev0, start, n));
                                }
                            }
                            assert(prev_map_wf(&g, prev@, start)) by {
                                assert(nexts@[i as int] == next);
                                assert(g.spec_out_edges(cur).contains(next));
                                assert(discovered(prev0, start, cur));
                            }
                            assert(discovered_set(prev@, start) <= bound) by {
                                assert forall|n: G::Node|
                                    discovered_set(prev@, start).contains(n) implies bound.contains(
                                    n,
                                ) by {
                                    if n == next {
                                        assert(discovered(prev0, start, cur));
                                        assert(bound.contains(cur));
                                        assert(g.spec_out_edges(cur).contains(next));
                                    } else {
                                        assert(discovered(prev0, start, n));
                                    }
                                }
                            }
                            assert forall|j: int| 0 <= j < to_explore@.len() implies discovered(
                                prev@,
                                start,
                                #[trigger] to_explore@[j],
                            ) by {
                                if j < qpre.len() {
                                    assert(to_explore@[j] == qpre[j]);
                                    assert(discovered(prev0, start, qpre[j]));
                                } else {
                                    assert(to_explore@[j] == next);
                                }
                            }
                            assert forall|n: G::Node| #[trigger] discovered(prev@, start, n)
                                implies to_explore@.contains(n) || bfs_settled(
                                &g,
                                prev@,
                                level,
                                start,
                                end,
                                n,
                            ) || n == cur by {
                                if n == next {
                                    assert(to_explore@[to_explore@.len() - 1] == n);
                                    assert(to_explore@.contains(n));
                                } else {
                                    assert(discovered(prev0, start, n));
                                    if qpre.contains(n) {
                                        let j = choose|j: int| 0 <= j < qpre.len() && qpre[j] == n;
                                        assert(to_explore@[j] == n);
                                        assert(to_explore@.contains(n));
                                    } else if bfs_settled(&g, prev0, level0, start, end, n) {
                                        assert forall|m: G::Node|
                                            #[trigger] g.spec_out_edges(n).contains(m) implies
                                        discovered(prev@, start, m) && level[m] <= level[n]
                                            + 1 by {
                                            assert(discovered(prev0, start, m));
                                            assert(level0[m] <= level0[n] + 1);
                                        }
                                    }
                                }
                            }
                            assert forall|n: G::Node| (#[trigger] lookup(prev@, n)) is Some implies {
                                let v = lookup(prev@, n)->Some_0;
                                level[n] == level[v] + 1
                            } by {
                                if n == next {
                                    assert(lookup(prev@, next) == Some(cur));
                                } else {
                                    assert(lookup(prev@, n) == lookup(prev0, n));
                                    let v = lookup(prev@, n)->Some_0;
                                    assert(discovered(prev0, start, v));
                                    assert(discovered(prev0, start, n));
                                }
                            }
                            assert forall|i2: int, j2: int|
                                #![trigger level[to_explore@[i2]], level[to_explore@[j2]]]
                                0 <= i2 <= j2 < to_explore@.len() implies level[to_explore@[i2]]
                                <= level[to_explore@[j2]] by {
                                if j2 == to_explore@.len() - 1 {
                                    assert(to_explore@[j2] == next);
                                    if i2 < j2 {
                                        assert(to_explore@[i2] == qpre[i2]);
                                        assert(discovered(prev0, start, qpre[i2]));
                                        assert(level0[qpre[i2]] <= level0[cur] + 1);
                                    }
                                } else {
                                    assert(to_explore@[i2] == qpre[i2]);
                                    assert(to_explore@[j2] == qpre[j2]);
                                    assert(discovered(prev0, start, qpre[i2]));
                                    assert(discovered(prev0, start, qpre[j2]));
                                    assert(level0[qpre[i2]] <= level0[qpre[j2]]);
                                }
                            }
                            assert forall|j2: int| 0 <= j2 < to_explore@.len() implies level[cur]
                                <= level[#[trigger] to_explore@[j2]] && level[to_explore@[j2]]
                                <= level[cur] + 1 by {
                                if j2 == to_explore@.len() - 1 {
                                    assert(to_explore@[j2] == next);
                                } else {
                                    assert(to_explore@[j2] == qpre[j2]);
                                    assert(discovered(prev0, start, qpre[j2]));
                                    assert(level0[cur] <= level0[qpre[j2]]);
                                    assert(level0[qpre[j2]] <= level0[cur] + 1);
                                }
                            }
                            assert forall|n: G::Node| #[trigger] discovered(prev@, start, n)
                                implies level[n] <= level[cur] + 1 by {
                                if n != next {
                                    assert(discovered(prev0, start, n));
                                    assert(level0[n] <= level0[cur] + 1);
                                }
                            }
                        }
                    }
                    i = i + 1;
                }
                proof {
                    assert(bfs_settled(&g, prev@, level, start, end, cur)) by {
                        assert forall|m: G::Node| #[trigger] g.spec_out_edges(cur).contains(m)
                            implies discovered(prev@, start, m) && level[m] <= level[cur] + 1 by {
                            let j = choose|j: int| 0 <= j < nexts@.len() && nexts@[j] == m;
                            assert(discovered(prev@, start, nexts@[j]));
                        }
                    }
                    if grew {
                        bound.difference(discovered_set(prev@, start)).lemma_subset_not_in_lt(
                            bound.difference(dset0),
                            fresh,
                        );
                    } else {
                        assert(discovered_set(prev@, start) =~= dset0);
                    }
                }
            },
        }
    }
}

/// Every prefix of a walk whose running cost fits also has a fitting cost.
proof fn lemma_cost_fits_take<G: VGraph>(g: &G, p: Seq<G::Node>, j: int) where G::Dist: Measure
    requires
        cost_fits(g, p),
        0 <= j <= p.len(),
    ensures
        cost_fits(g, p.take(j)),
    decreases p.len() - j,
{
    if j == p.len() {
        assert(p.take(j) =~= p);
    } else {
        lemma_cost_fits_take(g, p, j + 1);
        assert(p.take(j + 1).drop_last() =~= p.take(j));
    }
}

/// The total cost of `path`: the sum of `dist` over its consecutive pairs,
/// starting from the zero measure. A path of zero or one nodes costs zero.
/// The caller vouches through `cost_fits` that every running sum stays
/// representable in `G::Dist`; handing in consecutive nodes that are not an
/// edge is a `VGraph` contract violation, not a runtime-reported failure.
pub fn path_length<G>(g: G, path: Vec<G::Node>) -> (r: G::Dist) where
    G: VGraph,
    G::Node: Copy,
    G::Dist: Measure,

    requires
        cost_fits(&g, path@),
    ensures
        r.value() == path_cost(&g, path@),
{
    let distance = <G::Dist as Measure>::zero();
    if path.len() <= 1 {
        return distance;
    }
    let mut distance = distance;
    let mut i: usize = 1;
    while i < path.len()
        invariant
            cost_fits(&g, path@),
            1 <= i <= path@.len(),
            path@.len() >= 2,
            distance.value() == path_cost(&g, path@.take(i as int)),
        decreases path@.len() - i,
    {
        let step = g.dist(path[i - 1], path[i]);
        proof {
            lemma_cost_fits_take(&g, path@, i + 1);
            assert(path@.take(i + 1).drop_last() =~= path@.take(i as int));
            assert(path@.take(i + 1).last() == path@[i as int]);
            assert(path@.take(i + 1)[i - 1] == path@[i - 1]);
        }
        distance = distance.try_plus(&step).unwrap();
        i = i + 1;
    }
    proof {
        assert(path@.take(path@.len() as int) =~= path@);
    }
    distance
}

/// The distance value recorded for `n`; meaningful where `n` is a key.
spec fn gval<K, D: Measure>(dists: Seq<(K, D)>, n: K) -> int {
    (lookup(dists, n)->Some_0).value()
}

/// The search is sure to relax the edge from `n`, recorded at distance `gn`,
/// to `m`: the new accumulated cost is representable, and so is its sum with
/// any estimate the heuristic can answer for `m`.
spec fn relax_sure<G, H>(g: &G, heuristic: H, gn: int, n: G::Node, m: G::Node) -> bool where
    G: VGraph,
    G::Dist: Measure,
    H: Fn(G::Node) -> G::Dist,
{
    &&& G::Dist::fits(gn + g.spec_dist(n, m).value())
    &&& forall|hv: G::Dist|
        #[trigger] heuristic.ensures((m,), hv) ==> G::Dist::fits(
            gn + g.spec_dist(n, m).value() + hv.value(),
        )
}

/// `n` has left the frontier fully expanded: the goal predicate answered
/// false on it, and every successor whose relaxation was sure to be
/// representable is recorded, at no worse a distance.
spec fn astar_expanded<G, F, H>(
    g: &G,
    dists: Seq<(G::Node, G::Dist)>,
    is_end: F,
    heuristic: H,
    n: G::Node,
) -> bool where
    G: VGraph,
    G::Dist: Measure,
    F: Fn(G::Node) -> bool,
    H: Fn(G::Node) -> G::Dist,
{
    &&& is_end.ensures((n,), false)
    &&& forall|m: G::Node|
        #[trigger] g.spec_out_edges(n).contains(m) && relax_sure(
            g,
            heuristic,
            gval(dists, n),
            n,
            m,
        ) ==> has_key(dists, m) && gval(dists, m) <= gval(dists, n) + g.spec_dist(n, m).value()
}

/// Every estimate the heuristic can answer along `p` is non-negative and,
/// added to the cost of the prefix ending at its node, representable in
/// `G::Dist`.
pub open spec fn heuristic_fits<G, H>(g: &G, heuristic: H, p: Seq<G::Node>) -> bool where
    G: VGraph,
    G::Dist: Measure,
    H: Fn(G::Node) -> G::Dist,
{
    forall|i: int, hv: G::Dist|
        0 <= i < p.len() && #[trigger] heuristic.ensures((p[i],), hv) ==> hv.value() >= 0
            && G::Dist::fits(path_cost(g, p.take(i + 1)) + hv.value())
}

/// Once every recorded node is expanded, a walk from the start whose costs
/// and heuristic estimates are representable can only end at a node on which
/// the goal predicate answered false: best-first search missed nothing it
/// could represent.
proof fn lemma_astar_complete<G, F, H>(
    g: &G,
    dists: Seq<(G::Node, G::Dist)>,
    is_end: F,
    heuristic: H,
    q: Seq<G::Node>,
    i: int,
) where
    G: VGraph,
    G::Dist: Measure,
    F: Fn(G::Node) -> bool,
    H: Fn(G::Node) -> G::Dist,

    requires
        is_path(g, q),
        cost_fits(g, q),
        heuristic_fits(g, heuristic, q),
        forall|a: G::Node, b: G::Node| (#[trigger] g.spec_dist(a, b)).value() >= 0,
        forall|n: G::Node| #[trigger] lookup(dists, n) matches Some(d) ==> d.value() >= 0,
        forall|n: G::Node|
            #[trigger] has_key(dists, n) ==> astar_expanded(g, dists, is_end, heuristic, n),
        0 <= i < q.len(),
        has_key(dists, q[i]),
        gval(dists, q[i]) <= path_cost(g, q.take(i + 1)),
    ensures
        is_end.ensures((q.last(),), false),
    decreases q.len() - i,
{
    assert(astar_expanded(g, dists, is_end, heuristic, q[i]));
    if i == q.len() - 1 {
        assert(q.last() == q[i]);
    } else {
        let m = q[i + 1];
        assert(g.spec_out_edges(q[i]).contains(m));
        let gn = gval(dists, q[i]);
        let d = g.spec_dist(q[i], m).value();
        assert(q.take(i + 2).drop_last() =~= q.take(i + 1));
        assert(q.take(i + 2).last() == q[i + 1]);
        assert(q.take(i + 2)[i] == q[i]);
        assert(path_cost(g, q.take(i + 2)) == path_cost(g, q.take(i + 1)) + d);
        lemma_cost_fits_take(g, q, i + 2);
        assert(G::Dist::fits(path_cost(g, q.take(i + 2))));
        assert(0 <= gn);
        assert(G::Dist::fits(gn + d)) by {
            G::Dist::fits_monotone(path_cost(g, q.take(i + 2)), gn + d);
        }
        assert forall|hv: G::Dist| #[trigger] heuristic.ensures((m,), hv) implies G::Dist::fits(
            gn + d + hv.value(),
        ) by {
            assert(q[i + 1] == m);
            assert(hv.value() >= 0);
            assert(G::Dist::fits(path_cost(g, q.take(i + 2)) + hv.value()));
            G::Dist::fits_monotone(path_cost(g, q.take(i + 2)) + hv.value(), gn + d + hv.value());
        }
        assert(relax_sure(g, heuristic, gn, q[i], m));
        assert(has_key(dists, m));
        assert(gval(dists, m) <= gn + d);
        lemma_astar_complete(g, dists, is_end, heuristic, q, i + 1);
    }
}

/// With non-negative edge costs, no walk costs less than nothing.
proof fn lemma_path_cost_nonneg<G: VGraph>(g: &G, q: Seq<G::Node>) where G::Dist: Measure
    requires
        forall|a: G::Node, b: G::Node| (#[trigger] g.spec_dist(a, b)).value() >= 0,
    ensures
        path_cost(g, q) >= 0,
    decreases q.len(),
{
    if q.len() > 1 {
        lemma_path_cost_nonneg(g, q.drop_last());
    }
}

/// With non-negative edge costs, a prefix of a walk costs no more than the
/// whole walk.
proof fn lemma_path_cost_prefix<G: VGraph>(g: &G, q: Seq<G::Node>, k: int) where G::Dist: Measure
    requires
        forall|a: G::Node, b: G::Node| (#[trigger] g.spec_dist(a, b)).value() >= 0,
        0 <= k <= q.len(),
    ensures
        path_cost(g, q.take(k)) <= path_cost(g, q),
    decreases q.len() - k,
{
    if k == q.len() {
        assert(q.take(k) =~= q);
    } else {
        lemma_path_cost_prefix(g, q, k + 1);
        assert(q.take(k + 1).drop_last() =~= q.take(k));
    }
}

/// Along a reconstructed chain whose recorded distances dominate the step
/// costs, the cost of the walk is bounded by the last recorded distance.
proof fn lemma_chain_cost<G: VGraph>(
    g: &G,
    prevs: Seq<(G::Node, G::Node)>,
    dists: Seq<(G::Node, G::Dist)>,
    p: Seq<G::Node>,
    i: int,
) where G::Dist: Measure
    requires
        forall|k: int| 0 < k < p.len() ==> lookup(prevs, #[trigger] p[k]) == Some(p[k - 1]),
        forall|n: G::Node|
            #[trigger] lookup(prevs, n) matches Some(v) ==> gval(dists, n) >= gval(dists, v)
                + g.spec_dist(v, n).value(),
        p.len() >= 1,
        gval(dists, p[0]) == 0,
        0 <= i < p.len(),
    ensures
        path_cost(g, p.take(i + 1)) <= gval(dists, p[i]),
    decreases i,
{
    if i > 0 {
        lemma_chain_cost(g, prevs, dists, p, i - 1);
        assert(lookup(prevs, p[i]) == Some(p[i - 1]));
        assert(p.take(i + 1).drop_last() =~= p.take(i));
        assert(p.take(i + 1).last() == p[i]);
        assert(p.take(i + 1)[i - 1] == p[i - 1]);
    }
}

/// At the moment a goal leaves the frontier of a zero-heuristic search, its
/// recorded distance bounds the cost of every representable walk from the
/// start to a node that must satisfy the goal: the frontier cuts every such
/// walk at a distance at least the goal's.
proof fn lemma_astar_optimal<G, F, H>(
    g: &G,
    dists: Seq<(G::Node, G::Dist)>,
    qs: Seq<(G::Node, G::Dist)>,
    is_end: F,
    heuristic: H,
    cur: G::Node,
    q: Seq<G::Node>,
    i: int,
) where
    G: VGraph,
    G::Dist: Measure,
    F: Fn(G::Node) -> bool,
    H: Fn(G::Node) -> G::Dist,

    requires
        is_path(g, q),
        cost_fits(g, q),
        forall|a: G::Node, b: G::Node| (#[trigger] g.spec_dist(a, b)).value() >= 0,
        forall|n: G::Node| #[trigger] lookup(dists, n) matches Some(d) ==> d.value() >= 0,
        forall|n: G::Node, hv: G::Dist|
            #[trigger] heuristic.ensures((n,), hv) ==> hv.value() == 0,
        forall|x: (G::Node, G::Dist)| #[trigger] qs.contains(x) ==> x.1.value() == gval(
            dists,
            x.0,
        ),
        forall|j: int| 0 <= j < qs.len() ==> gval(dists, cur) <= (#[trigger] qs[j]).1.value(),
        forall|n: G::Node|
            #[trigger] has_key(dists, n) ==> holds_node(qs, n) || astar_expanded(
                g,
                dists,
                is_end,
                heuristic,
                n,
            ) || n == cur,
        !is_end.ensures((q.last(),), false),
        0 <= i < q.len(),
        has_key(dists, q[i]),
        gval(dists, q[i]) <= path_cost(g, q.take(i + 1)),
    ensures
        gval(dists, cur) <= path_cost(g, q),
    decreases q.len() - i,
{
    if q[i] == cur {
        lemma_path_cost_prefix(g, q, i + 1);
    } else if holds_node(qs, q[i]) {
        let j = choose|j: int| 0 <= j < qs.len() && qs[j].0 == q[i];
        assert(qs.contains(qs[j]));
        assert(qs[j].1.value() == gval(dists, q[i]));
        assert(gval(dists, cur) <= qs[j].1.value());
        lemma_path_cost_prefix(g, q, i + 1);
    } else {
        assert(astar_expanded(g, dists, is_end, heuristic, q[i]));
        if i == q.len() - 1 {
            assert(q.last() == q[i]);
            assert(false);
        } else {
            let m = q[i + 1];
            assert(g.spec_out_edges(q[i]).contains(m));
            let gn = gval(dists, q[i]);
            let d = g.spec_dist(q[i], m).value();
            assert(q.take(i + 2).drop_last() =~= q.take(i + 1));
            assert(q.take(i + 2).last() == q[i + 1]);
            assert(q.take(i + 2)[i] == q[i]);
            assert(path_cost(g, q.take(i + 2)) == path_cost(g, q.take(i + 1)) + d);
            lemma_cost_fits_take(g, q, i + 2);
            assert(G::Dist::fits(path_cost(g, q.take(i + 2))));
            assert(0 <= gn);
            assert(G::Dist::fits(gn + d)) by {
                G::Dist::fits_monotone(path_cost(g, q.take(i + 2)), gn + d);
            }
            assert forall|hv: G::Dist| #[trigger] heuristic.ensures((m,), hv) implies
            G::Dist::fits(gn + d + hv.value()) by {
                assert(hv.value() == 0);
            }
            assert(relax_sure(g, heuristic, gn, q[i], m));
            assert(has_key(dists, m));
            assert(gval(dists, m) <= gn + d);
            lemma_astar_optimal(g, dists, qs, is_end, heuristic, cur, q, i + 1);
        }
    }
}

/// Heuristic-guided best-first search: A* over the caller's state space.
///
/// `is_end` generalizes a fixed goal node to any goal predicate, and
/// `heuristic` estimates the remaining cost from a node; with a heuristic
/// that always returns zero the search degrades to uniform-cost (Dijkstra)
/// search. Edge costs must be non-negative, and the caller vouches through
/// `finitely_explorable` that the region around `start` is finite, which
/// bounds the exploration: a node is requeued only on a strictly better
/// distance, and the best queued entry is always taken first, so stale
/// entries never pile up. On success the result is a real path of `g` from
/// `start` to a node satisfying `is_end`; an absent result means that no
/// walk whose running costs and heuristic estimates are representable in
/// `G::Dist` can end at a goal, so success is owed whenever a goal is
/// reachable within representable cost. Under the zero heuristic the
/// returned path is in addition as cheap as every such walk to a goal, which
/// is what uniform-cost search promises. A successor whose accumulated cost
/// cannot be represented in `G::Dist` is not relaxed.
pub fn a_star_search<G, F, H>(g: G, start: G::Node, is_end: F, heuristic: H) -> (r: Option<
    Vec<G::Node>,
>) where
    G: VGraph,
    G::Node: Hash + Eq + Copy,
    G::Dist: Measure,
    F: Fn(G::Node) -> bool,
    H: Fn(G::Node) -> G::Dist,

    requires
        eq_is_structural::<G::Node>(),
        finitely_explorable(&g, start),
        forall|n: G::Node| #[trigger] is_end.requires((n,)),
        forall|n: G::Node| #[trigger] heuristic.requires((n,)),
        forall|a: G::Node, b: G::Node| (#[trigger] g.spec_dist(a, b)).value() >= 0,
    ensures
        r matches Some(p) ==> connects(&g, p@, start, p@.last()) && distinct_nodes(p@)
            && is_end.ensures((p@.last(),), true),
        (forall|n: G::Node| reachable(&g, start, n) ==> !(#[trigger] is_end.ensures((n,), true)))
            ==> r is None,
        r is None ==> forall|q: Seq<G::Node>|
            #[trigger] is_path(&g, q) && q.first() == start && cost_fits(&g, q)
                && heuristic_fits(&g, heuristic, q) ==> is_end.ensures((q.last(),), false),
        (forall|n: G::Node, hv: G::Dist| #[trigger] heuristic.ensures((n,), hv) ==> hv.value()
            == 0) ==> (r matches Some(p) ==> forall|q: Seq<G::Node>|
            #[trigger] is_path(&g, q) && q.first() == start && cost_fits(&g, q)
                && !is_end.ensures((q.last(),), false) ==> path_cost(&g, p@) <= path_cost(&g, q)),
        !is_end.ensures((start,), false) ==> (r matches Some(p) && p@ == seq![start]),
{
    if is_end(start) {
        let mut p: Vec<G::Node> = Vec::new();
        p.push(start);
        proof {
            assert(p@ =~= seq![start]);
            assert(connects(&g, p@, start, start));
            assert(reachable(&g, start, start));
            assert(path_cost(&g, p@) == 0);
            assert forall|q: Seq<G::Node>|
                #[trigger] is_path(&g, q) && q.first() == start && cost_fits(&g, q)
                    && !is_end.ensures((q.last(),), false) implies path_cost(&g, p@) <= path_cost(
                &g,
                q,
            ) by {
                lemma_path_cost_nonneg(&g, q);
            }
        }
        return Some(p);
    }
    let ghost bound = choose|s: Set<G::Node>|
        s.finite() && s.contains(start) && #[trigger] closed_under_edges(&g, s);
    let mut to_explore: Frontier<G::Node, G::Dist> = Frontier::new();
    let h0 = heuristic(start);
    to_explore.push_improve(start, h0);
    let mut prev: Table<G::Node, G::Node> = Table::new();
    let mut dist_from_start: Table<G::Node, G::Dist> = Table::new();
    dist_from_start.insert(start, <G::Dist as Measure>::zero());
    let ghost mut rank: Map<G::Node, (nat, nat)> = Map::empty().insert(start, (0, 0));
    let ghost mut stamp: nat = 1;
    proof {
        assert(holds_node(to_explore@, start));
        assert forall|n: G::Node| #[trigger] has_key(dist_from_start@, n) implies n == start by {
            if n != start {
                assert(lookup(dist_from_start@, n) is None);
            }
        }
        if (forall|n: G::Node, hv: G::Dist|
            #[trigger] heuristic.ensures((n,), hv) ==> hv.value() == 0) {
            assert(h0.value() == 0);
            assert forall|x: (G::Node, G::Dist)| #[trigger] to_explore@.contains(x) implies
            x.1.value() == gval(dist_from_start@, x.0) by {
                assert(x == (start, h0));
            }
        }
    }

    loop
        invariant
            eq_is_structural::<G::Node>(),
            bound.finite(),
            bound.contains(start),
            closed_under_edges(&g, bound),
            forall|n: G::Node| #[trigger] is_end.requires((n,)),
            forall|n: G::Node| #[trigger] heuristic.requires((n,)),
            forall|a: G::Node, b: G::Node| (#[trigger] g.spec_dist(a, b)).value() >= 0,
            is_end.ensures((start,), false),
            reached_set(dist_from_start@, start) <= bound,
            lookup(dist_from_start@, start) matches Some(d0) && d0.value() == 0,
            forall|j: int|
                0 <= j < dist_from_start@.len() ==> (#[trigger] dist_from_start@[j]).1.value()
                    >= 0,
            forall|n: G::Node|
                #[trigger] lookup(dist_from_start@, n) matches Some(d) ==> d.value() >= 0
                    && rank.dom().contains(n) && rank[n].0 == d.value(),
            forall|n: G::Node|
                #[trigger] has_key(dist_from_start@, n) ==> n == start || has_key(prev@, n),
            forall|n: G::Node| #[trigger] has_key(prev@, n) ==> has_key(dist_from_start@, n),
            prev_map_wf(&g, prev@, start),
            chain_ranked(prev@, rank),
            forall|n: G::Node| #[trigger] rank.dom().contains(n) ==> rank[n].1 < stamp,
            forall|x: (G::Node, G::Dist)|
                #[trigger] to_explore@.contains(x) ==> has_key(dist_from_start@, x.0),
            forall|n: G::Node|
                #[trigger] has_key(dist_from_start@, n) ==> holds_node(to_explore@, n)
                    || astar_expanded(&g, dist_from_start@, is_end, heuristic, n),
            distinct_keys(to_explore@),
            forall|n: G::Node|
                #[trigger] lookup(prev@, n) matches Some(v) ==> gval(dist_from_start@, n) >= gval(
                    dist_from_start@,
                    v,
                ) + g.spec_dist(v, n).value(),
            (forall|n: G::Node, hv: G::Dist|
                #[trigger] heuristic.ensures((n,), hv) ==> hv.value() == 0) ==> forall|
                x: (G::Node, G::Dist),
            |
                #[trigger] to_explore@.contains(x) ==> x.1.value() == gval(dist_from_start@, x.0),
        decreases bound.difference(reached_set(dist_from_start@, start)).len(), potential(
            dist_from_start@,
        ) + to_explore@.len(),
    {
        let ghost aset0 = reached_set(dist_from_start@, start);
        let ghost m2head = potential(dist_from_start@) + to_explore@.len();
        let ghost open0 = to_explore@;
        let popped = to_explore.pop();
        match popped {
            None => {
                proof {
                    assert(to_explore@.len() == 0);
                    assert forall|q: Seq<G::Node>|
                        #[trigger] is_path(&g, q) && q.first() == start && cost_fits(&g, q)
                            && heuristic_fits(&g, heuristic, q) implies is_end.ensures(
                        (q.last(),),
                        false,
                    ) by {
                        assert forall|n: G::Node| #[trigger] has_key(dist_from_start@, n) implies
                        astar_expanded(&g, dist_from_start@, is_end, heuristic, n) by {
                            assert(!holds_node(to_explore@, n));
                        }
                        assert(has_key(dist_from_start@, start));
                        assert(gval(dist_from_start@, start) == 0);
                        assert(q[0] == start);
                        lemma_astar_complete(&g, dist_from_start@, is_end, heuristic, q, 0);
                    }
                }
                return None;
            },
            Some(pair) => {
                let cur = pair.0;
                proof {
                    assert(has_key(dist_from_start@, cur));
                }
                if is_end(cur) {
                    let p = back_track(&prev, cur, Ghost(rank));
                    proof {
                        assert(discovered(prev@, start, cur));
                        lemma_backtrack_path(&g, prev@, start, p@);
                        assert(reachable(&g, start, cur));
                        assert(is_end.ensures((cur,), true));
                        if (forall|n: G::Node, hv: G::Dist|
                            #[trigger] heuristic.ensures((n,), hv) ==> hv.value() == 0) {
                            assert(pair.1.value() == gval(dist_from_start@, cur)) by {
                                assert(open0.contains(pair));
                            }
                            assert(p@[0] == start);
                            assert(gval(dist_from_start@, start) == 0);
                            lemma_chain_cost(&g, prev@, dist_from_start@, p@, p@.len() - 1);
                            assert(p@.take(p@.len() as int) =~= p@);
                            assert(path_cost(&g, p@) <= gval(dist_from_start@, cur));
                            assert forall|x: (G::Node, G::Dist)| #[trigger] to_explore@.contains(
                                x,
                            ) implies x.1.value() == gval(dist_from_start@, x.0) by {
                                assert(open0.contains(x));
                            }
                            assert forall|j: int| 0 <= j < to_explore@.len() implies gval(
                                dist_from_start@,
                                cur,
                            ) <= (#[trigger] to_explore@[j]).1.value() by {
                                assert(to_explore@.contains(to_explore@[j]));
                                assert(open0.contains(to_explore@[j]));
                                let k = choose|k: int|
                                    0 <= k < open0.len() && open0[k] == to_explore@[j];
                                assert(pair.1.value() <= open0[k].1.value());
                            }
                            assert forall|n: G::Node| #[trigger] has_key(dist_from_start@, n)
                                implies holds_node(to_explore@, n) || astar_expanded(
                                &g,
                                dist_from_start@,
                                is_end,
                                heuristic,
                                n,
                            ) || n == cur by {
                                if holds_node(open0, n) && n != cur {
                                    assert(holds_node(to_explore@, n));
                                }
                            }
                            assert forall|q: Seq<G::Node>|
                                #[trigger] is_path(&g, q) && q.first() == start && cost_fits(
                                    &g,
                                    q,
                                ) && !is_end.ensures((q.last(),), false) implies path_cost(&g, p@)
                                <= path_cost(&g, q) by {
                                assert(q[0] == start);
                                assert(has_key(dist_from_start@, start));
                                assert(q.take(1).len() == 1);
                                assert(path_cost(&g, q.take(1)) == 0);
                                lemma_astar_optimal(
                                    &g,
                                    dist_from_start@,
                                    to_explore@,
                                    is_end,
                                    heuristic,
                                    cur,
                                    q,
                                    0,
                                );
                            }
                        }
                    }
                    return Some(p);
                }
                proof {
                    assert forall|n: G::Node| #[trigger] has_key(dist_from_start@, n) implies
                    holds_node(to_explore@, n) || astar_expanded(
                        &g,
                        dist_from_start@,
                        is_end,
                        heuristic,
                        n,
                    ) || n == cur by {
                        if holds_node(open0, n) && n != cur {
                            assert(holds_node(to_explore@, n));
                        }
                    }
                }
                let nexts = g.out_edges(cur);
                let ghost mut grew: bool = false;
                let ghost mut fresh: G::Node = start;
                let mut i: usize = 0;
                while i < nexts.len()
                    invariant
                        eq_is_structural::<G::Node>(),
                        bound.finite(),
                        bound.contains(start),
                        closed_under_edges(&g, bound),
                        forall|n: G::Node| #[trigger] is_end.requires((n,)),
                        forall|n: G::Node| #[trigger] heuristic.requires((n,)),
                        forall|a: G::Node, b: G::Node|
                            (#[trigger] g.spec_dist(a, b)).value() >= 0,
                        is_end.ensures((start,), false),
                        reached_set(dist_from_start@, start) <= bound,
                        lookup(dist_from_start@, start) matches Some(d0) && d0.value() == 0,
                        forall|j: int|
                            0 <= j < dist_from_start@.len() ==> (
                            #[trigger] dist_from_start@[j]).1.value() >= 0,
                        forall|n: G::Node|
                            #[trigger] lookup(dist_from_start@, n) matches Some(d) ==> d.value()
                                >= 0 && rank.dom().contains(n) && rank[n].0 == d.value(),
                        forall|n: G::Node|
                            #[trigger] has_key(dist_from_start@, n) ==> n == start || has_key(
                                prev@,
                                n,
                            ),
                        forall|n: G::Node|
                            #[trigger] has_key(prev@, n) ==> has_key(dist_from_start@, n),
                        prev_map_wf(&g, prev@, start),
                        chain_ranked(prev@, rank),
                        forall|n: G::Node| #[trigger] rank.dom().contains(n) ==> rank[n].1 < stamp,
                        forall|x: (G::Node, G::Dist)|
                            #[trigger] to_explore@.contains(x) ==> has_key(dist_from_start@, x.0),
                        nexts@ == g.spec_out_edges(cur),
                        i <= nexts@.len(),
                        has_key(dist_from_start@, cur),
                        is_end.ensures((cur,), false),
                        forall|n: G::Node|
                            #[trigger] has_key(dist_from_start@, n) ==> holds_node(to_explore@, n)
                                || astar_expanded(&g, dist_from_start@, is_end, heuristic, n)
                                || n == cur,
                        forall|j: int|
                            0 <= j < i ==> (relax_sure(
                                &g,
                                heuristic,
                                gval(dist_from_start@, cur),
                                cur,
                                #[trigger] nexts@[j],
                            ) ==> has_key(dist_from_start@, nexts@[j]) && gval(
                                dist_from_start@,
                                nexts@[j],
                            ) <= gval(dist_from_start@, cur) + g.spec_dist(
                                cur,
                                nexts@[j],
                            ).value()),
                        distinct_keys(to_explore@),
                        forall|n: G::Node|
                            #[trigger] lookup(prev@, n) matches Some(v) ==> gval(
                                dist_from_start@,
                                n,
                            ) >= gval(dist_from_start@, v) + g.spec_dist(v, n).value(),
                        (forall|n: G::Node, hv: G::Dist|
                            #[trigger] heuristic.ensures((n,), hv) ==> hv.value() == 0) ==> forall|
                            x: (G::Node, G::Dist),
                        |
                            #[trigger] to_explore@.contains(x) ==> x.1.value() == gval(
                                dist_from_start@,
                                x.0,
                            ),
                        aset0 <= reached_set(dist_from_start@, start),
                        !grew ==> reached_set(dist_from_start@, start) =~= aset0 && potential(
                            dist_from_start@,
                        ) + to_explore@.len() < m2head,
                        grew ==> reached_set(dist_from_start@, start).contains(fresh)
                            && !aset0.contains(fresh),
                    decreases nexts@.len() - i,
                {
                    let next = nexts[i];
                    let cur_d = match dist_from_start.get(&cur) {
                        Some(d) => d,
                        None => {
                            proof {
                                assert(false);
                            }
                            return None;
                        },
                    };
                    let step = g.dist(cur, next);
                    let cand_opt = cur_d.try_plus(&step);
                    if let Some(cand) = cand_opt {
                        let best_opt = dist_from_start.get(&next);
                        let skip = match best_opt {
                            Some(best) => best.le(&cand),
                            None => false,
                        };
                        if skip {
                            proof {
                                assert(lookup(dist_from_start@, cur) == Some(cur_d));
                                assert(has_key(dist_from_start@, next));
                                assert(gval(dist_from_start@, next) <= gval(dist_from_start@, cur)
                                    + g.spec_dist(cur, next).value());
                            }
                        } else {
                            let h_next = heuristic(next);
                            if let Some(h_dist) = cand.try_plus(&h_next) {
                                let ghost dist0 = dist_from_start@;
                                let ghost prev0 = prev@;
                                let ghost open0 = to_explore@;
                                proof {
                                    assert(cand.value() >= 0);
                                    assert(next != start) by {
                                        if next == start {
                                            assert(lookup(dist0, start) matches Some(d0)
                                                && d0.value() == 0);
                                        }
                                    }
                                    assert(next != cur) by {
                                        if next == cur {
                                            assert(lookup(dist0, cur) == Some(cur_d));
                                        }
                                    }
                                }
                                to_explore.push_improve(next, h_dist);
                                prev.insert(next, cur);
                                dist_from_start.upsert(next, cand);
                                proof {
                                    rank = rank.insert(next, (cand.value() as nat, stamp));
                                    stamp = stamp + 1;
                                    assert(nexts@[i as int] == next);
                                    assert(g.spec_out_edges(cur).contains(next));
                                    assert forall|q: G::Node|
                                        #[trigger] lookup(prev@, q) == (if q == next {
                                            Some(cur)
                                        } else {
                                            lookup(prev0, q)
                                        }) by {
                                        lemma_lookup_push(prev0, next, cur, q);
                                    }
                                    assert(prev_map_wf(&g, prev@, start)) by {
                                        assert(has_key(dist0, cur));
                                        assert(discovered(prev0, start, cur));
                                    }
                                    assert(chain_ranked(prev@, rank)) by {
                                        assert forall|n: G::Node|
                                            (#[trigger] lookup(prev@, n)) is Some implies {
                                            let v = lookup(prev@, n)->Some_0;
                                            rank.dom().contains(n) && rank.dom().contains(v)
                                                && rank_lt(rank[v], rank[n])
                                        } by {
                                            let v = lookup(prev@, n)->Some_0;
                                            if n == next {
                                                assert(v == cur);
                                                assert(lookup(dist0, cur) == Some(cur_d));
                                                assert(rank[cur].0 == cur_d.value());
                                                assert(cand.value() == cur_d.value()
                                                    + step.value());
                                            } else {
                                                assert(lookup(prev0, n) == Some(v));
                                                if v == next {
                                                    assert(discovered(prev0, start, next));
                                                    assert(has_key(prev0, next));
                                                    assert(has_key(dist0, next));
                                                    let best = lookup(dist0, next)->Some_0;
                                                    assert(best.value() > cand.value());
                                                }
                                            }
                                        }
                                    }
                                    assert forall|n: G::Node|
                                        #[trigger] has_key(dist_from_start@, n) implies n == start
                                        || has_key(prev@, n) by {
                                        if n == next {
                                            assert(lookup(prev@, next) == Some(cur));
                                        } else if n != start {
                                            assert(lookup(dist_from_start@, n) == lookup(
                                                dist0,
                                                n,
                                            ));
                                            assert(has_key(dist0, n));
                                            assert(has_key(prev0, n));
                                            assert(lookup(prev@, n) == lookup(prev0, n));
                                        }
                                    }
                                    assert forall|n: G::Node| #[trigger] has_key(prev@, n) implies
                                    has_key(dist_from_start@, n) by {
                                        if n == next {
                                            assert(lookup(dist_from_start@, next) == Some(cand));
                                        } else {
                                            assert(lookup(prev@, n) == lookup(prev0, n));
                                            assert(has_key(prev0, n));
                                            assert(lookup(dist_from_start@, n) == lookup(
                                                dist0,
                                                n,
                                            ));
                                        }
                                    }
                                    assert(reached_set(dist_from_start@, start) <= bound) by {
                                        assert forall|n: G::Node|
                                            reached_set(dist_from_start@, start).contains(n)
                                            implies bound.contains(n) by {
                                            if n != start && !has_key(dist0, n) {
                                                assert(n == next);
                                                assert(reached_set(dist0, start).contains(cur));
                                                assert(bound.contains(cur));
                                            } else {
                                                assert(reached_set(dist0, start).contains(n));
                                            }
                                        }
                                    }
                                    if has_key(dist0, next) {
                                        let j = choose|j: int|
                                            0 <= j < dist0.len() && (#[trigger] dist0[j]).0 == next
                                                && lookup(dist0, next) == Some(dist0[j].1)
                                                && dist_from_start@ == dist0.update(
                                                j,
                                                (next, cand),
                                            );
                                        lemma_potential_update(dist0, j, (next, cand));
                                        assert(reached_set(dist_from_start@, start)
                                            =~= reached_set(dist0, start));
                                        assert(potential(dist_from_start@) <= potential(dist0)
                                            - 1);
                                    } else {
                                        assert(dist_from_start@ == dist0.push((next, cand)));
                                        assert(dist_from_start@.drop_last() =~= dist0);
                                        assert(reached_set(dist_from_start@, start).contains(
                                            next,
                                        ));
                                        assert(!aset0.contains(next)) by {
                                            assert(!reached_set(dist0, start).contains(next));
                                        }
                                        if !grew {
                                            grew = true;
                                            fresh = next;
                                        }
                                        assert(reached_set(dist_from_start@, start).contains(
                                            fresh,
                                        )) by {
                                            if fresh != next {
                                                assert(reached_set(dist0, start).contains(fresh));
                                            }
                                        }
                                    }
                                    assert forall|j: int|
                                        0 <= j < dist_from_start@.len() implies (
                                    #[trigger] dist_from_start@[j]).1.value() >= 0 by {
                                        if j < dist0.len() && dist_from_start@[j] == dist0[j] {
                                            assert(dist0[j].1.value() >= 0);
                                        } else {
                                            assert(dist_from_start@[j] == (next, cand));
                                        }
                                    }
                                    assert(aset0 <= reached_set(dist_from_start@, start)) by {
                                        assert forall|n: G::Node| aset0.contains(n) implies
                                        reached_set(dist_from_start@, start).contains(n) by {
                                            assert(reached_set(dist0, start).contains(n));
                                        }
                                    }
                                    assert(lookup(dist_from_start@, cur) == lookup(dist0, cur));
                                    assert(lookup(dist0, cur) == Some(cur_d));
                                    assert(gval(dist_from_start@, cur) == cur_d.value());
                                    assert(lookup(dist_from_start@, next) == Some(cand));
                                    assert(gval(dist_from_start@, next) == cand.value());
                                    assert forall|j: int|
                                        0 <= j < i + 1 implies (relax_sure(
                                        &g,
                                        heuristic,
                                        gval(dist_from_start@, cur),
                                        cur,
                                        #[trigger] nexts@[j],
                                    ) ==> has_key(dist_from_start@, nexts@[j]) && gval(
                                        dist_from_start@,
                                        nexts@[j],
                                    ) <= gval(dist_from_start@, cur) + g.spec_dist(
                                        cur,
                                        nexts@[j],
                                    ).value()) by {
                                        let m = nexts@[j];
                                        if j < i && relax_sure(
                                            &g,
                                            heuristic,
                                            gval(dist0, cur),
                                            cur,
                                            m,
                                        ) {
                                            assert(has_key(dist0, m));
                                            assert(gval(dist0, m) <= gval(dist0, cur)
                                                + g.spec_dist(cur, m).value());
                                            if m == next {
                                                match best_opt {
                                                    Some(b) => {
                                                        assert(gval(dist0, next) == b.value());
                                                        assert(b.value() > cand.value());
                                                    },
                                                    None => {
                                                        assert(!has_key(dist0, next));
                                                    },
                                                }
                                            } else {
                                                assert(lookup(dist_from_start@, m) == lookup(
                                                    dist0,
                                                    m,
                                                ));
                                            }
                                        }
                                    }
                                    assert forall|n: G::Node|
                                        #[trigger] has_key(dist_from_start@, n) implies holds_node(
                                        to_explore@,
                                        n,
                                    ) || astar_expanded(&g, dist_from_start@, is_end, heuristic, n)
                                        || n == cur by {
                                        if n == next {
                                            assert(holds_node(to_explore@, next));
                                        } else {
                                            assert(lookup(dist_from_start@, n) == lookup(
                                                dist0,
                                                n,
                                            ));
                                            assert(has_key(dist0, n));
                                            if holds_node(open0, n) {
                                                assert(holds_node(to_explore@, n));
                                            } else if n != cur {
                                                assert(astar_expanded(
                                                    &g,
                                                    dist0,
                                                    is_end,
                                                    heuristic,
                                                    n,
                                                ));
                                                assert(gval(dist_from_start@, n) == gval(
                                                    dist0,
                                                    n,
                                                ));
                                                assert forall|m: G::Node|
                                                    #[trigger] g.spec_out_edges(n).contains(m)
                                                        && relax_sure(
                                                        &g,
                                                        heuristic,
                                                        gval(dist_from_start@, n),
                                                        n,
                                                        m,
                                                    ) implies has_key(dist_from_start@, m) && gval(
                                                    dist_from_start@,
                                                    m,
                                                ) <= gval(dist_from_start@, n) + g.spec_dist(
                                                    n,
                                                    m,
                                                ).value() by {
                                                    assert(has_key(dist0, m));
                                                    assert(gval(dist0, m) <= gval(dist0, n)
                                                        + g.spec_dist(n, m).value());
                                                    if m == next {
                                                        match best_opt {
                                                            Some(b) => {
                                                                assert(gval(dist0, next)
                                                                    == b.value());
                                                                assert(b.value() > cand.value());
                                                            },
                                                            None => {
                                                                assert(!has_key(dist0, next));
                                                            },
                                                        }
                                                    } else {
                                                        assert(lookup(dist_from_start@, m)
                                                            == lookup(dist0, m));
                                                    }
                                                }
                                            }
                                        }
                                    }
                                    assert forall|n: G::Node|
                                        (#[trigger] lookup(prev@, n)) is Some implies {
                                        let v = lookup(prev@, n)->Some_0;
                                        gval(dist_from_start@, n) >= gval(dist_from_start@, v)
                                            + g.spec_dist(v, n).value()
                                    } by {
                                        let v = lookup(prev@, n)->Some_0;
                                        if n == next {
                                            assert(v == cur);
                                            assert(gval(dist_from_start@, next) == cand.value());
                                            assert(cand.value() == cur_d.value() + step.value());
                                        } else {
                                            assert(lookup(prev0, n) == Some(v));
                                            assert(gval(dist0, n) >= gval(dist0, v) + g.spec_dist(
                                                v,
                                                n,
                                            ).value());
                                            assert(lookup(dist_from_start@, n) == lookup(
                                                dist0,
                                                n,
                                            ));
                                            if v == next {
                                                assert(discovered(prev0, start, next));
                                                assert(has_key(prev0, next));
                                                assert(has_key(dist0, next));
                                                match best_opt {
                                                    Some(b) => {
                                                        assert(gval(dist0, next) == b.value());
                                                        assert(b.value() > cand.value());
                                                    },
                                                    None => {
                                                        assert(!has_key(dist0, next));
                                                    },
                                                }
                                            } else {
                                                assert(lookup(dist_from_start@, v) == lookup(
                                                    dist0,
                                                    v,
                                                ));
                                            }
                                        }
                                    }
                                    if (forall|n: G::Node, hv: G::Dist|
                                        #[trigger] heuristic.ensures((n,), hv) ==> hv.value()
                                            == 0) {
                                        assert(h_next.value() == 0);
                                        assert(h_dist.value() == cand.value());
                                        assert forall|x: (G::Node, G::Dist)|
                                            #[trigger] to_explore@.contains(x) implies x.1.value()
                                            == gval(dist_from_start@, x.0) by {
                                            if x == (next, h_dist) {
                                                assert(gval(dist_from_start@, next)
                                                    == cand.value());
                                            } else {
                                                assert(open0.contains(x));
                                                assert(x.1.value() == gval(dist0, x.0));
                                                if x.0 == next {
                                                    assert(has_key(dist0, next));
                                                    match best_opt {
                                                        Some(b) => {
                                                            assert(gval(dist0, next)
                                                                == b.value());
                                                            assert(b.value() > cand.value());
                                                            assert(x.1.value() <= h_dist.value());
                                                            assert(false);
                                                        },
                                                        None => {
                                                            assert(!has_key(dist0, next));
                                                        },
                                                    }
                                                } else {
                                                    assert(gval(dist_from_start@, x.0) == gval(
                                                        dist0,
                                                        x.0,
                                                    ));
                                                }
                                            }
                                        }
                                    }
                                }
                            } else {
                                proof {
                                    assert(lookup(dist_from_start@, cur) == Some(cur_d));
                                    assert(heuristic.ensures((next,), h_next));
                                    assert(!G::Dist::fits(cand.value() + h_next.value()));
                                    assert(gval(dist_from_start@, cur) + g.spec_dist(
                                        cur,
                                        next,
                                    ).value() == cand.value());
                                    assert(!relax_sure(
                                        &g,
                                        heuristic,
                                        gval(dist_from_start@, cur),
                                        cur,
                                        next,
                                    ));
                                }
                            }
                        }
                    } else {
                        proof {
                            assert(lookup(dist_from_start@, cur) == Some(cur_d));
                            assert(!G::Dist::fits(gval(dist_from_start@, cur) + g.spec_dist(
                                cur,
                                next,
                            ).value()));
                        }
                    }
                    i = i + 1;
                }
                proof {
                    assert(astar_expanded(&g, dist_from_start@, is_end, heuristic, cur)) by {
                        assert forall|m: G::Node|
                            #[trigger] g.spec_out_edges(cur).contains(m) && relax_sure(
                                &g,
                                heuristic,
                                gval(dist_from_start@, cur),
                                cur,
                                m,
                            ) implies has_key(dist_from_start@, m) && gval(dist_from_start@, m)
                            <= gval(dist_from_start@, cur) + g.spec_dist(cur, m).value() by {
                            let j = choose|j: int| 0 <= j < nexts@.len() && nexts@[j] == m;
                            assert(nexts@[j] == m);
                        }
                    }
                    assert forall|n: G::Node| #[trigger] has_key(dist_from_start@, n) implies
                    holds_node(to_explore@, n) || astar_expanded(
                        &g,
                        dist_from_start@,
                        is_end,
                        heuristic,
                        n,
                    ) by {
                        if n == cur {
                        }
                    }
                    lemma_potential_nonneg(dist_from_start@);
                    if grew {
                        bound.difference(reached_set(dist_from_start@, start)).lemma_subset_not_in_lt(
                            bound.difference(aset0),
                            fresh,
                        );
                    } else {
                        assert(reached_set(dist_from_start@, start) =~= aset0);
                    }
                }
            },
        }
    }
}

} // verus!




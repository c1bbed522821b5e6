use vstd::prelude::*;
use vstd::std_specs::cmp::PartialEqSpec;

use crate::measure::Measure;

verus! {

/// Virtual Graph.
///
/// The abstract state space a caller supplies: `out_edges` enumerates the
/// direct successors of a node, and `dist` gives the cost of one of those
/// edges. The graph may be implicit and even infinite; it is never
/// materialized. The two spec functions are the mathematical model that the
/// executable methods are proved to agree with.
pub trait VGraph {
    type Node;

    // Measure of the distance between nodes
    type Dist;

    /// Model of `out_edges`: the successors of `node`.
    spec fn spec_out_edges(&self, node: Self::Node) -> Seq<Self::Node>;

    /// Model of `dist`: the cost of the edge from `from` to `to`.
    spec fn spec_dist(&self, from: Self::Node, to: Self::Node) -> Self::Dist;

    fn out_edges(&self, node: Self::Node) -> (r: Vec<Self::Node>)
        ensures
            r@ == self.spec_out_edges(node),
    ;

    fn dist(&self, from: Self::Node, to: Self::Node) -> (r: Self::Dist)
        ensures
            r == self.spec_dist(from, to),
    ;
}

/// The executable equality of `T` agrees with mathematical equality.
///
/// The search engine compares nodes and keys them in maps, so it asks this of
/// the node type. It holds for the integer primitives and for any type whose
/// hand-written `PartialEq` is accompanied by a `PartialEqSpecImpl` saying
/// that `==` compares the fields.
pub open spec fn eq_is_structural<T: PartialEq>() -> bool {
    &&& T::obeys_eq_spec()
    &&& forall|a: T, b: T| #[trigger] a.eq_spec(&b) <==> a == b
}

/// No node occurs twice in `p`: a path, not a mere walk.
pub open spec fn distinct_nodes<A>(p: Seq<A>) -> bool {
    forall|i: int, j: int| #![trigger p[i], p[j]] 0 <= i < j < p.len() ==> p[i] != p[j]
}

/// `p` is a walk through `g`: non-empty, and each step follows an edge.
pub open spec fn is_path<G: VGraph>(g: &G, p: Seq<G::Node>) -> bool {
    &&& p.len() >= 1
    &&& forall|i: int|
        0 <= i < p.len() - 1 ==> (#[trigger] g.spec_out_edges(p[i])).contains(p[i + 1])
}

/// `p` is a walk through `g` that starts at `from` and ends at `to`.
pub open spec fn connects<G: VGraph>(g: &G, p: Seq<G::Node>, from: G::Node, to: G::Node) -> bool {
    &&& is_path(g, p)
    &&& p.first() == from
    &&& p.last() == to
}

/// Some walk through `g` leads from `from` to `to`.
pub open spec fn reachable<G: VGraph>(g: &G, from: G::Node, to: G::Node) -> bool {
    exists|p: Seq<G::Node>| #[trigger] connects(g, p, from, to)
}

/// No edge leaves the set `s`.
pub open spec fn closed_under_edges<G: VGraph>(g: &G, s: Set<G::Node>) -> bool {
    forall|n: G::Node, m: G::Node|
        #[trigger] s.contains(n) && #[trigger] g.spec_out_edges(n).contains(m) ==> s.contains(m)
}

/// The total cost of walk `p`: the sum of `spec_dist` over its consecutive
/// pairs. A walk of zero or one nodes costs nothing.
pub open spec fn path_cost<G: VGraph>(g: &G, p: Seq<G::Node>) -> int where G::Dist: Measure
    decreases p.len(),
{
    if p.len() <= 1 {
        0
    } else {
        path_cost(g, p.drop_last()) + g.spec_dist(p[p.len() - 2], p[p.len() - 1]).value()
    }
}

/// Every prefix sum of the cost of `p` is representable in `G::Dist`.
pub open spec fn cost_fits<G: VGraph>(g: &G, p: Seq<G::Node>) -> bool where G::Dist: Measure
    decreases p.len(),
{
    if p.len() <= 1 {
        true
    } else {
        cost_fits(g, p.drop_last()) && G::Dist::fits(path_cost(g, p))
    }
}

/// A walk that starts inside a set closed under edges never leaves it.
proof fn lemma_path_confined<G: VGraph>(g: &G, s: Set<G::Node>, p: Seq<G::Node>)
    requires
        is_path(g, p),
        s.contains(p.first()),
        closed_under_edges(g, s),
    ensures
        forall|i: int| 0 <= i < p.len() ==> s.contains(#[trigger] p[i]),
    decreases p.len(),
{
    if p.len() > 1 {
        assert(g.spec_out_edges(p[0]).contains(p[1]));
        assert(s.contains(p[1]));
        let q = p.subrange(1, p.len() as int);
        assert forall|i: int| 0 <= i < q.len() - 1 implies (#[trigger] g.spec_out_edges(
            q[i],
        )).contains(q[i + 1]) by {
            assert(q[i] == p[i + 1]);
            assert(q[i + 1] == p[i + 2]);
            assert(g.spec_out_edges(p[i + 1]).contains(p[i + 2]));
        }
        lemma_path_confined(g, s, q);
        assert forall|i: int| 0 <= i < p.len() implies s.contains(#[trigger] p[i]) by {
            if i >= 1 {
                assert(q[i - 1] == p[i]);
                assert(s.contains(q[i - 1]));
            }
        }
    }
}

/// A node outside a set that is closed under edges and contains `from` cannot
/// be reached from `from`. This is how the searches justify an absent result:
/// when the frontier empties, the discovered set is closed, so anything not
/// discovered is unreachable.
pub proof fn lemma_unreachable_outside_closed_set<G: VGraph>(
    g: &G,
    s: Set<G::Node>,
    from: G::Node,
    to: G::Node,
)
    requires
        s.contains(from),
        closed_under_edges(g, s),
        !s.contains(to),
    ensures
        !reachable(g, from, to),
{
    if reachable(g, from, to) {
        let p = choose|p: Seq<G::Node>| connects(g, p, from, to);
        lemma_path_confined(g, s, p);
        assert(s.contains(p[p.len() - 1]));
    }
}

/// A single-node walk costs zero: the form a search result takes when the
/// start already satisfies the goal.
pub proof fn lemma_single_node_path_cost<G: VGraph>(g: &G, n: G::Node) where G::Dist: Measure
    ensures
        path_cost(g, seq![n]) == 0,
{
}

} // verus!

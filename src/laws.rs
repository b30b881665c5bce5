//! Properties of the graph model that hold across several operations.
use crate::graph::{GraphModel, NodeKey, RelationType, Status};
use vstd::prelude::*;

verus! {

/// A registered node's identity sits at its index.
pub proof fn lemma_index_valid(g: GraphModel, n: NodeKey)
    requires
        g.registered(n),
    ensures
        0 <= g.index_of(n) < g.nodes.len(),
        g.nodes[g.index_of(n)] == n,
{
    let i = choose|i: int| 0 <= i < g.nodes.len() && g.nodes[i] == n;
}

/// A registered node `d` that `s` has a link to, labelled with a label in
/// `allowed`, is one permitted step away from it.
pub proof fn lemma_relation_is_step(g: GraphModel, allowed: Set<RelationType>, s: NodeKey, d: NodeKey)
    requires
        g.relation_of(s, d) is Some,
        allowed.contains(g.relation_of(s, d)->0),
    ensures
        g.step(allowed, g.index_of(s), g.index_of(d)),
{
    let a = g.index_of(s);
    let k = choose|k: int| 0 <= k < g.links[a].len() && g.links[a][k].0 == g.index_of(d);
    assert(allowed.contains(g.links[a][k].1));
}

/// Linking keeps the graph well formed.
pub proof fn lemma_link_wf(g: GraphModel, s: NodeKey, d: NodeKey, t: RelationType)
    requires
        g.wf(),
    ensures
        g.link(s, d, t).wf(),
{
    if g.link_status(s, d) == Status::Success {
        lemma_index_valid(g, s);
        lemma_index_valid(g, d);
        let a = g.index_of(s);
        let b = g.index_of(d);
        let g1 = g.link(s, d, t);
        assert forall|x: int, k1: int, k2: int|
            0 <= x < g1.links.len() && 0 <= k1 < g1.links[x].len() && 0 <= k2 < g1.links[x].len() && k1
                != k2 implies #[trigger] g1.links[x][k1].0 != #[trigger] g1.links[x][k2].0 by {
            if x == a {
                let last = g.links[a].len() as int;
                if k1 == last {
                    assert(g.links[a][k2].0 != b);
                } else if k2 == last {
                    assert(g.links[a][k1].0 != b);
                } else {
                    assert(g.links[a][k1].0 != g.links[a][k2].0);
                }
            }
        }
        assert forall|x: int, k: int| 0 <= x < g1.links.len() && 0 <= k < g1.links[x].len() implies 0
            <= #[trigger] g1.links[x][k].0 < g1.nodes.len() by {
            if x == a && k < g.links[a].len() {
                assert(0 <= g.links[a][k].0 < g.nodes.len());
            }
        }
    }
}

/// Every registered node reaches itself, with no link needed and whatever
/// labels the query follows.
pub proof fn lemma_node_reaches_itself(g: GraphModel, allowed: Set<RelationType>, a: NodeKey)
    requires
        g.wf(),
        g.registered(a),
    ensures
        g.query(allowed, a, a) == Ok::<bool, Status>(true),
{
    lemma_index_valid(g, a);
    g.lemma_reaches_self(allowed, g.index_of(a));
}

/// A node that is not registered makes linking and querying report
/// `NotFound`, and linking leaves the graph unchanged.
pub proof fn lemma_unregistered_not_found(
    g: GraphModel,
    allowed: Set<RelationType>,
    s: NodeKey,
    d: NodeKey,
    t: RelationType,
)
    requires
        !g.registered(s) || !g.registered(d),
    ensures
        g.link_status(s, d) == Status::NotFound,
        g.link(s, d, t) == g,
        g.query(allowed, s, d) == Err::<bool, Status>(Status::NotFound),
{
}

/// Linking a pair a second time, with any label, reports
/// `DuplicateRelation` and changes nothing: exactly one link joins the pair,
/// with the label it was first given.
pub proof fn lemma_second_link_is_duplicate(
    g: GraphModel,
    s: NodeKey,
    d: NodeKey,
    t1: RelationType,
    t2: RelationType,
)
    requires
        g.wf(),
        g.link_status(s, d) == Status::Success,
    ensures
        g.link(s, d, t1).wf(),
        g.link(s, d, t1).link_status(s, d) == Status::DuplicateRelation,
        g.link(s, d, t1).link(s, d, t2) == g.link(s, d, t1),
        g.link(s, d, t1).relation_count(s, d) == 1,
        g.link(s, d, t1).relation_of(s, d) == Some(t1),
{
    lemma_link_wf(g, s, d, t1);
    lemma_index_valid(g, s);
    lemma_index_valid(g, d);
    let g1 = g.link(s, d, t1);
    let a = g.index_of(s);
    let b = g.index_of(d);
    let last = g.links[a].len() as int;
    assert(g1.nodes == g.nodes);
    assert(g1.index_of(s) == a);
    assert(g1.index_of(d) == b);
    assert(g1.links[a][last] == (b, t1));
    assert(g1.has_link(a, b));
    assert(g1.links_between(a, b) =~= set![last]) by {
        assert forall|k: int| #[trigger] g1.links_between(a, b).contains(k) implies k == last by {
            if k < last {
                assert(g.links[a][k].0 == g1.links[a][k].0);
            }
        }
    }
    let c = choose|c: int| 0 <= c < g1.links[a].len() && g1.links[a][c].0 == g1.index_of(d);
    if c < last {
        assert(g.links[a][c].0 == g1.links[a][c].0);
    }
}

/// Two nodes linked to each other, in a cycle, reach each other.
pub proof fn lemma_cycle_reachable(g: GraphModel, a: NodeKey, b: NodeKey)
    requires
        g.wf(),
        g.relation_of(a, b) is Some,
        g.relation_of(b, a) is Some,
    ensures
        g.query(Set::full(), a, b) == Ok::<bool, Status>(true),
        g.query(Set::full(), b, a) == Ok::<bool, Status>(true),
{
    lemma_index_valid(g, a);
    lemma_index_valid(g, b);
    let ia = g.index_of(a);
    let ib = g.index_of(b);
    lemma_relation_is_step(g, Set::full(), a, b);
    lemma_relation_is_step(g, Set::full(), b, a);
    g.lemma_reaches_self(Set::full(), ia);
    g.lemma_reaches_step(Set::full(), ia, ia, ib);
    g.lemma_reaches_self(Set::full(), ib);
    g.lemma_reaches_step(Set::full(), ib, ib, ia);
}

/// A link labelled `Has` from `a` to `b` and one labelled `Is` from `b` to
/// `c` let a query that follows both labels reach `c` from `a`.
pub proof fn lemma_two_labels_reach(g: GraphModel, a: NodeKey, b: NodeKey, c: NodeKey)
    requires
        g.wf(),
        g.relation_of(a, b) == Some(RelationType::Has),
        g.relation_of(b, c) == Some(RelationType::Is),
    ensures
        g.query(set![RelationType::Has, RelationType::Is], a, c) == Ok::<bool, Status>(true),
{
    let allowed = set![RelationType::Has, RelationType::Is];
    lemma_index_valid(g, a);
    lemma_index_valid(g, b);
    lemma_index_valid(g, c);
    lemma_relation_is_step(g, allowed, a, b);
    lemma_relation_is_step(g, allowed, b, c);
    g.lemma_reaches_self(allowed, g.index_of(a));
    g.lemma_reaches_step(allowed, g.index_of(a), g.index_of(a), g.index_of(b));
    g.lemma_reaches_step(allowed, g.index_of(a), g.index_of(b), g.index_of(c));
}

/// Links are directed: where the only links go from `a` to `b`, `b` does
/// not reach `a`.
pub proof fn lemma_links_are_directed(g: GraphModel, allowed: Set<RelationType>, a: NodeKey, b: NodeKey)
    requires
        g.wf(),
        g.registered(a),
        g.registered(b),
        a != b,
        forall|x: int, k: int|
            0 <= x < g.links.len() && 0 <= k < g.links[x].len() ==> x == g.index_of(a)
                && #[trigger] g.links[x][k].0 == g.index_of(b),
    ensures
        g.query(allowed, b, a) == Ok::<bool, Status>(false),
{
    lemma_index_valid(g, a);
    lemma_index_valid(g, b);
    let ia = g.index_of(a);
    let ib = g.index_of(b);
    let marked = Seq::new(g.nodes.len(), |i: int| i == ib);
    assert forall|v: int, w: int|
        0 <= v < g.nodes.len() && 0 <= w < g.nodes.len() && #[trigger] marked[v] && #[trigger] g.step(
            allowed,
            v,
            w,
        ) implies marked[w] by {
        let k = choose|k: int|
            0 <= k < g.links[v].len() && g.links[v][k].0 == w && allowed.contains(#[trigger] g.links[v][k].1);
        assert(g.links[v][k].0 == ib);
    }
    g.lemma_closed_unreachable(allowed, marked, ib, ia);
}

} // verus!

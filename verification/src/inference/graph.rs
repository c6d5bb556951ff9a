//! Directed graphs over the nodes `0, 1, 2, ..`, kept by `petgraph`.
//!
//! The graph algorithms are not proved here. What this module states of each
//! is what the rest of the library relies on.

use vstd::prelude::*;
use petgraph::graph::{Graph, NodeIndex};
use petgraph::Directed;

verus! {

#[verifier::external_type_specification]
#[verifier::external_body]
#[verifier::reject_recursive_types(N)]
#[verifier::reject_recursive_types(E)]
#[verifier::reject_recursive_types(Ty)]
#[verifier::reject_recursive_types(Ix)]
pub struct ExGraph<N, E, Ty, Ix>(Graph<N, E, Ty, Ix>);

#[verifier::external_type_specification]
#[verifier::external_body]
pub struct ExDirected(Directed);

/// The number of nodes of a graph. Its nodes are the numbers below it.
pub uninterp spec fn node_count(g: Graph<(), (), Directed, usize>) -> nat;

/// The edges of a graph, each from its first node to its second, in the order
/// in which they were added.
pub uninterp spec fn edge_list(g: Graph<(), (), Directed, usize>) -> Seq<(int, int)>;

/// `p` is a walk: a non-empty list of nodes, with an edge from each to the next.
pub open spec fn is_walk(edges: Seq<(int, int)>, p: Seq<int>) -> bool {
    &&& p.len() > 0
    &&& forall|k: int| 0 <= k < p.len() - 1 ==> edges.contains((#[trigger] p[k], p[k + 1]))
}

/// A walk leads from `a` to `b`.
pub open spec fn reaches(edges: Seq<(int, int)>, a: int, b: int) -> bool {
    exists|p: Seq<int>| #[trigger] is_walk(edges, p) && p.first() == a && p.last() == b
}

/// Some walk with at least one edge comes back to where it began.
pub open spec fn has_cycle(edges: Seq<(int, int)>) -> bool {
    exists|p: Seq<int>| #[trigger] is_walk(edges, p) && p.len() >= 2 && p.first() == p.last()
}

/// Some part holds the node `v`.
pub open spec fn is_placed(parts: Seq<Vec<usize>>, v: int) -> bool {
    exists|c: int, k: int|
        0 <= c < parts.len() && 0 <= k < parts[c]@.len() && (#[trigger] parts[c]@[k]) == v
}

/// `parts` splits the nodes below `n` into non-empty parts: each node is found
/// in one place only.
pub open spec fn is_partition(parts: Seq<Vec<usize>>, n: nat) -> bool {
    &&& forall|c: int| 0 <= c < parts.len() ==> (#[trigger] parts[c])@.len() > 0
    &&& forall|c: int, k: int|
        0 <= c < parts.len() && 0 <= k < parts[c]@.len() ==> (#[trigger] parts[c]@[k]) < n
    &&& forall|v: int| 0 <= v < n ==> #[trigger] is_placed(parts, v)
    &&& forall|c1: int, k1: int, c2: int, k2: int|
        0 <= c1 < parts.len() && 0 <= k1 < parts[c1]@.len() && 0 <= c2 < parts.len() && 0 <= k2
            < parts[c2]@.len() && (#[trigger] parts[c1]@[k1]) == (#[trigger] parts[c2]@[k2]) ==> c1
            == c2 && k1 == k2
}

/// The node `v` stands in `order`.
pub open spec fn is_listed(order: Seq<usize>, v: int) -> bool {
    exists|i: int| 0 <= i < order.len() && (#[trigger] order[i]) == v
}

/// `order` lists every node below `n` once.
pub open spec fn is_listing(order: Seq<usize>, n: nat) -> bool {
    &&& order.len() == n
    &&& forall|v: int| 0 <= v < n ==> #[trigger] is_listed(order, v)
    &&& forall|i: int| 0 <= i < order.len() ==> (#[trigger] order[i]) < n
    &&& forall|i: int, j: int|
        0 <= i < order.len() && 0 <= j < order.len() && (#[trigger] order[i]) == (
        #[trigger] order[j]) ==> i == j
}

/// Calls `Graph::with_capacity`, which makes a graph without nodes or edges.
#[verifier::external_body]
pub(crate) fn empty_graph() -> (g: Graph<(), (), Directed, usize>)
    ensures
        node_count(g) == 0,
        edge_list(g) == Seq::<(int, int)>::empty(),
{
    Graph::with_capacity(0, 0)
}

/// Calls `Graph::add_node`, which adds one node behind those that the graph
/// has and returns its number. The edges stay.
#[verifier::external_body]
pub(crate) fn add_node(g: &mut Graph<(), (), Directed, usize>) -> (v: usize)
    ensures
        node_count(*final(g)) == node_count(*old(g)) + 1,
        edge_list(*final(g)) == edge_list(*old(g)),
        v == node_count(*old(g)),
{
    g.add_node(()).index()
}

/// Calls `Graph::add_edge`, which adds one edge from `a` to `b`, both nodes of
/// the graph. The nodes stay.
#[verifier::external_body]
pub(crate) fn add_edge(g: &mut Graph<(), (), Directed, usize>, a: usize, b: usize)
    requires
        a < node_count(*old(g)),
        b < node_count(*old(g)),
    ensures
        node_count(*final(g)) == node_count(*old(g)),
        edge_list(*final(g)) == edge_list(*old(g)).push((a as int, b as int)),
{
    g.add_edge(NodeIndex::new(a), NodeIndex::new(b), ());
}

/// Calls `petgraph::operator::complement` with an empty output graph. The
/// result has the nodes of `g`, and an edge from one node to another exactly
/// where `g` has none.
#[verifier::external_body]
pub(crate) fn complement_of(g: &Graph<(), (), Directed, usize>) -> (c: Graph<
    (),
    (),
    Directed,
    usize,
>)
    ensures
        node_count(c) == node_count(*g),
        forall|a: int, b: int| #[trigger]
            edge_list(c).contains((a, b)) <==> (0 <= a < node_count(*g) && 0 <= b < node_count(*g)
                && a != b && !edge_list(*g).contains((a, b))),
{
    let mut out = Graph::with_capacity(0, 0);
    petgraph::operator::complement(g, &mut out, ());
    out
}

/// Calls `petgraph::algo::tarjan_scc`, which splits the nodes into strongly
/// connected components: two nodes are in one component exactly when walks
/// lead from each to the other.
#[verifier::external_body]
pub(crate) fn strong_components(g: &Graph<(), (), Directed, usize>) -> (parts: Vec<Vec<usize>>)
    ensures
        is_partition(parts@, node_count(*g)),
        forall|c1: int, k1: int, c2: int, k2: int|
            0 <= c1 < parts@.len() && 0 <= k1 < parts@[c1]@.len() && 0 <= c2 < parts@.len() && 0
                <= k2 < parts@[c2]@.len() ==> (c1 == c2 <==> reaches(
                edge_list(*g),
                (#[trigger] parts@[c1]@[k1]) as int,
                (#[trigger] parts@[c2]@[k2]) as int,
            ) && reaches(edge_list(*g), parts@[c2]@[k2] as int, parts@[c1]@[k1] as int)),
{
    petgraph::algo::tarjan_scc(g).into_iter().map(
        |part| part.into_iter().map(|v| v.index()).collect(),
    ).collect()
}

/// Calls `petgraph::algo::toposort`. On success the result lists every node
/// once, each before the nodes that its edges lead to. It fails only on a
/// graph with a cycle.
#[verifier::external_body]
pub(crate) fn topological_order(g: &Graph<(), (), Directed, usize>) -> (r: Option<Vec<usize>>)
    ensures
        r is Some ==> is_listing(r->Some_0@, node_count(*g)),
        r is Some ==> forall|i: int, j: int|
            0 <= i < r->Some_0@.len() && 0 <= j < r->Some_0@.len() && edge_list(*g).contains(
                ((#[trigger] r->Some_0@[i]) as int, (#[trigger] r->Some_0@[j]) as int),
            ) ==> i < j,
        r is None ==> has_cycle(edge_list(*g)),
{
    match petgraph::algo::toposort(g, None) {
        Ok(order) => Some(order.into_iter().map(|v| v.index()).collect()),
        Err(_) => None,
    }
}

} // verus!

//! The entanglement graph: an undirected petgraph graph whose node weights are
//! commit ids and whose edge weights are link strengths in parts per million.

use vstd::prelude::*;
use petgraph::Graph;
use petgraph::Undirected;

verus! {

#[verifier::external_type_specification]
#[verifier::external_body]
#[verifier::reject_recursive_types(N)]
#[verifier::reject_recursive_types(E)]
#[verifier::reject_recursive_types(Ty)]
#[verifier::reject_recursive_types(Ix)]
pub struct ExGraph<N, E, Ty, Ix>(Graph<N, E, Ty, Ix>);

#[verifier::external_type_specification]
#[verifier::external_body]
pub struct ExUndirected(Undirected);

/// The graph type that holds entanglements.
pub type EntanglementGraph = Graph<u64, u64, Undirected>;

/// The node weights of a graph, by node index.
pub uninterp spec fn graph_nodes(g: EntanglementGraph) -> Seq<u64>;

/// The edges of a graph, by edge index: both endpoints and the weight.
pub uninterp spec fn graph_edges(g: EntanglementGraph) -> Seq<(usize, usize, u64)>;

/// Nodes `a` and `b` share an edge, in either direction.
pub open spec fn linked(edges: Seq<(usize, usize, u64)>, a: int, b: int) -> bool {
    exists|k: int|
        0 <= k < edges.len() && ((#[trigger] edges[k]).0 == a && edges[k].1 == b || edges[k].0 == b
            && edges[k].1 == a)
}

/// `w` is a non-empty sequence of nodes, each linked to the next.
pub open spec fn is_walk(edges: Seq<(usize, usize, u64)>, w: Seq<int>) -> bool {
    w.len() > 0 && forall|i: int| 0 <= i < w.len() - 1 ==> linked(edges, #[trigger] w[i], w[i + 1])
}

/// Some walk leads from `s` to `t`; every node reaches itself.
pub open spec fn reachable(edges: Seq<(usize, usize, u64)>, s: int, t: int) -> bool {
    exists|w: Seq<int>| #[trigger] is_walk(edges, w) && w[0] == s && w.last() == t
}

/// Relies on `Graph::new_undirected`: a graph with no nodes and no edges.
#[verifier::external_body]
pub(crate) fn graph_new() -> (g: EntanglementGraph)
    ensures
        graph_nodes(g) == Seq::<u64>::empty(),
        graph_edges(g) == Seq::<(usize, usize, u64)>::empty(),
{
    Graph::new_undirected()
}

/// Relies on `Graph::add_node`: appends a node, whose index it returns; it
/// panics once the default 32-bit index space is full.
#[verifier::external_body]
pub(crate) fn graph_add_node(g: &mut EntanglementGraph, w: u64) -> (r: usize)
    requires
        graph_nodes(*old(g)).len() < 0xFFFF_FFFF,
    ensures
        graph_nodes(*final(g)) == graph_nodes(*old(g)).push(w),
        graph_edges(*final(g)) == graph_edges(*old(g)),
        r == graph_nodes(*old(g)).len(),
{
    g.add_node(w).index()
}

/// Relies on `Graph::add_edge`: appends an edge between two existing nodes; it
/// panics on an index out of bounds or once the edge index space is full.
#[verifier::external_body]
pub(crate) fn graph_add_edge(g: &mut EntanglementGraph, a: usize, b: usize, w: u64)
    requires
        a < graph_nodes(*old(g)).len(),
        b < graph_nodes(*old(g)).len(),
        graph_edges(*old(g)).len() < 0xFFFF_FFFF,
    ensures
        graph_nodes(*final(g)) == graph_nodes(*old(g)),
        graph_edges(*final(g)) == graph_edges(*old(g)).push((a, b, w)),
{
    g.add_edge(petgraph::graph::NodeIndex::new(a), petgraph::graph::NodeIndex::new(b), w);
}

/// Relies on `Graph::node_count`: the number of nodes.
#[verifier::external_body]
pub(crate) fn graph_node_count(g: &EntanglementGraph) -> (r: usize)
    ensures
        r == graph_nodes(*g).len(),
{
    g.node_count()
}

/// Relies on `Graph::edge_count`: the number of edges.
#[verifier::external_body]
pub(crate) fn graph_edge_count(g: &EntanglementGraph) -> (r: usize)
    ensures
        r == graph_edges(*g).len(),
{
    g.edge_count()
}

/// Relies on indexing a `Graph` by node: the weight of node `i`.
#[verifier::external_body]
pub(crate) fn graph_node_weight(g: &EntanglementGraph, i: usize) -> (r: u64)
    requires
        i < graph_nodes(*g).len(),
    ensures
        r == graph_nodes(*g)[i as int],
{
    g[petgraph::graph::NodeIndex::new(i)]
}

/// Relies on `petgraph::algo::dijkstra` with no goal: its result has a key for
/// each node that a walk over the undirected edges reaches from `start`,
/// `start` included, and for no other node. Edge weights serve as costs; they
/// are bounded so that no sum of them along a path overflows.
#[verifier::external_body]
pub(crate) fn graph_reachable(g: &EntanglementGraph, start: usize) -> (r: Vec<usize>)
    requires
        start < graph_nodes(*g).len(),
        graph_nodes(*g).len() <= 0xFFFF_FFFF,
        forall|k: int| 0 <= k < graph_edges(*g).len() ==> (#[trigger] graph_edges(*g)[k]).2 <= 1_000_000,
    ensures
        r@.no_duplicates(),
        forall|n: usize|
            #[trigger] r@.contains(n) <==> (n < graph_nodes(*g).len() && reachable(
                graph_edges(*g),
                start as int,
                n as int,
            )),
{
    petgraph::algo::dijkstra(g, petgraph::graph::NodeIndex::new(start), None, |e| *e.weight())
        .into_keys()
        .map(|n| n.index())
        .collect()
}

} // verus!

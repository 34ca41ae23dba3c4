//! The directed graph of petgraph that holds requirement summaries, seen
//! through its node labels and its edge list in order of insertion.
use vstd::prelude::*;
use petgraph::graph::{DiGraph, NodeIndex};

verus! {

#[verifier::external_type_specification]
#[verifier::external_body]
#[verifier::reject_recursive_types(N)]
#[verifier::reject_recursive_types(E)]
#[verifier::reject_recursive_types(Ty)]
#[verifier::reject_recursive_types(Ix)]
pub struct ExGraph<N, E, Ty, Ix>(petgraph::graph::Graph<N, E, Ty, Ix>);

#[verifier::external_type_specification]
#[verifier::external_body]
pub struct ExDirected(petgraph::Directed);

/// The node weights of the graph, by node index.
pub uninterp spec fn node_labels(g: DiGraph<String, ()>) -> Seq<Seq<char>>;

/// The edges of the graph as (source, target) pairs, in order of insertion.
pub uninterp spec fn edge_list(g: DiGraph<String, ()>) -> Seq<(int, int)>;

/// Largest index petgraph's default index type can hand out.
pub const INDEX_LIMIT: usize = 4294967295;

/// Targets of the edges leaving `a`, the most recently added first.
pub open spec fn out_targets(edges: Seq<(int, int)>, a: int) -> Seq<int>
    decreases edges.len(),
{
    if edges.len() == 0 {
        seq![]
    } else if edges.last().0 == a {
        seq![edges.last().1] + out_targets(edges.drop_last(), a)
    } else {
        out_targets(edges.drop_last(), a)
    }
}

/// Whether `edges` holds an edge from `a` to `b`.
pub open spec fn has_edge(edges: Seq<(int, int)>, a: int, b: int) -> bool {
    exists|k: int| 0 <= k < edges.len() && #[trigger] edges[k] == (a, b)
}

/// `p` is a closed walk over nodes below `n`: each node has an edge to the
/// next, and the last has an edge back to the first.
pub open spec fn is_cycle(n: int, edges: Seq<(int, int)>, p: Seq<int>) -> bool {
    &&& p.len() > 0
    &&& forall|i: int| 0 <= i < p.len() ==> 0 <= #[trigger] p[i] < n
    &&& forall|i: int| 0 <= i < p.len() - 1 ==> has_edge(edges, #[trigger] p[i], p[i + 1])
    &&& has_edge(edges, p.last(), p[0])
}

/// Whether the graph on nodes below `n` holds a directed cycle (a self
/// loop counts).
pub open spec fn has_cycle(n: int, edges: Seq<(int, int)>) -> bool {
    exists|p: Seq<int>| is_cycle(n, edges, p)
}

/// `order` lists each node below `n` once, and every edge goes from an
/// earlier position to a later one.
pub open spec fn is_topo_order(n: int, edges: Seq<(int, int)>, order: Seq<int>) -> bool {
    &&& order.len() == n
    &&& order.no_duplicates()
    &&& forall|i: int| 0 <= i < n ==> 0 <= #[trigger] order[i] < n
    &&& forall|i: int, j: int|
        0 <= i < n && 0 <= j < n && has_edge(edges, #[trigger] order[i], #[trigger] order[j]) ==> i < j
}

/// Relies on `petgraph::algo::is_cyclic_directed`: whether the directed
/// graph contains a cycle.
#[verifier::external_body]
pub(crate) fn is_cyclic(g: &DiGraph<String, ()>) -> (r: bool)
    ensures
        r == has_cycle(node_labels(*g).len() as int, edge_list(*g)),
{
    petgraph::algo::is_cyclic_directed(g)
}

/// Relies on `petgraph::algo::toposort`: on an acyclic graph, every node
/// ordered before its successors; on a cyclic one (self loops included),
/// its `Cycle` error.
#[verifier::external_body]
pub(crate) fn topo_order(g: &DiGraph<String, ()>) -> (r: Option<Vec<usize>>)
    ensures
        r is Some <==> !has_cycle(node_labels(*g).len() as int, edge_list(*g)),
        r is Some ==> is_topo_order(
            node_labels(*g).len() as int,
            edge_list(*g),
            r->Some_0@.map_values(|x: usize| x as int),
        ),
{
    petgraph::algo::toposort(g, None).ok().map(|v| v.into_iter().map(|n| n.index()).collect())
}

/// Relies on `Graph::new`: a graph with no nodes and no edges.
#[verifier::external_body]
pub(crate) fn new_graph() -> (g: DiGraph<String, ()>)
    ensures
        node_labels(g) == Seq::<Seq<char>>::empty(),
        edge_list(g) == Seq::<(int, int)>::empty(),
{
    DiGraph::new()
}

/// Relies on `Graph::add_node`: the new node takes the next index. It
/// panics once the index would reach the limit of the index type.
#[verifier::external_body]
pub(crate) fn add_node(g: &mut DiGraph<String, ()>, label: String) -> (i: usize)
    requires
        node_labels(*old(g)).len() < INDEX_LIMIT,
    ensures
        i == node_labels(*old(g)).len(),
        node_labels(*final(g)) == node_labels(*old(g)).push(label@),
        edge_list(*final(g)) == edge_list(*old(g)),
{
    g.add_node(label).index()
}

/// Relies on `Graph::add_edge`: appends an edge. It panics on an index out
/// of bounds, and once the edge index would reach the limit.
#[verifier::external_body]
pub(crate) fn add_edge(g: &mut DiGraph<String, ()>, a: usize, b: usize)
    requires
        a < node_labels(*old(g)).len(),
        b < node_labels(*old(g)).len(),
        edge_list(*old(g)).len() < INDEX_LIMIT,
    ensures
        node_labels(*final(g)) == node_labels(*old(g)),
        edge_list(*final(g)) == edge_list(*old(g)).push((a as int, b as int)),
{
    g.add_edge(NodeIndex::new(a), NodeIndex::new(b), ());
}

/// Relies on `Graph::neighbors`: outgoing edges are walked from the most
/// recently added one, and each yields its target.
#[verifier::external_body]
pub(crate) fn successors(g: &DiGraph<String, ()>, a: usize) -> (r: Vec<usize>)
    requires
        a < node_labels(*g).len(),
    ensures
        r@.map_values(|x: usize| x as int) == out_targets(edge_list(*g), a as int),
{
    g.neighbors(NodeIndex::new(a)).map(|n| n.index()).collect()
}

} // verus!

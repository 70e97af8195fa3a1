//! The dependency graph, held in a `petgraph` graph, and what this library
//! relies on of it.

use crate::flow::StepNode;
use vstd::prelude::*;

verus! {

/// `petgraph::graph::Graph`, opaque here: what it holds is named by
/// `graph_nodes` and `graph_edges`.
#[verifier::external_type_specification]
#[verifier::external_body]
#[verifier::reject_recursive_types(N)]
#[verifier::reject_recursive_types(E)]
#[verifier::reject_recursive_types(Ty)]
#[verifier::reject_recursive_types(Ix)]
pub struct ExGraph<N, E, Ty, Ix>(petgraph::graph::Graph<N, E, Ty, Ix>);

/// `petgraph::Directed`, the marker of a graph with directed edges.
#[verifier::external_type_specification]
#[verifier::external_body]
pub struct ExDirected(petgraph::Directed);

/// Graph of step execution: one node per step, one edge from a dependency to
/// each step that depends on it.
pub type StepGraph = petgraph::graph::Graph<StepNode, (), petgraph::Directed, u32>;

/// The node weights of a graph, by node index.
pub uninterp spec fn graph_nodes(g: StepGraph) -> Seq<StepNode>;

/// The edges of a graph as pairs (source index, target index), by edge index.
pub uninterp spec fn graph_edges(g: StepGraph) -> Seq<(int, int)>;

/// Every edge joins two nodes below `n`.
pub open spec fn edges_in_range(edges: Seq<(int, int)>, n: nat) -> bool {
    forall|e: int|
        0 <= e < edges.len() ==> 0 <= (#[trigger] edges[e]).0 < n && 0 <= edges[e].1 < n
}

/// `path` walks along edges: each node is joined to the next by an edge.
pub open spec fn is_path(edges: Seq<(int, int)>, path: Seq<int>) -> bool {
    forall|k: int|
        0 <= k < path.len() - 1 ==> edges.contains((#[trigger] path[k], path[k + 1]))
}

/// Node `v` lies on a cycle: some path of at least one edge leads from `v`
/// back to `v`.
pub open spec fn on_cycle(edges: Seq<(int, int)>, v: int) -> bool {
    exists|path: Seq<int>|
        #![auto]
        path.len() >= 2 && path[0] == v && path[path.len() - 1] == v && is_path(edges, path)
}

/// Some node lies on a cycle.
pub open spec fn has_cycle(edges: Seq<(int, int)>) -> bool {
    exists|v: int| on_cycle(edges, v)
}

/// Node `v` stands somewhere in `order`.
pub open spec fn appears_in(order: Seq<usize>, v: int) -> bool {
    exists|i: int| 0 <= i < order.len() && #[trigger] order[i] == v
}

/// `order` lists each node below `n` exactly once.
pub open spec fn lists_every_node(order: Seq<usize>, n: nat) -> bool {
    &&& order.len() == n
    &&& forall|i: int| 0 <= i < order.len() ==> (#[trigger] order[i]) < n
    &&& forall|i: int, j: int|
        0 <= i < j < order.len() ==> (#[trigger] order[i]) != (#[trigger] order[j])
    &&& forall|v: int| 0 <= v < n ==> #[trigger] appears_in(order, v)
}

/// In `order`, the source of every edge stands before its target.
pub open spec fn sources_first(order: Seq<usize>, edges: Seq<(int, int)>) -> bool {
    forall|e: int, i: int, j: int|
        0 <= e < edges.len() && 0 <= i < order.len() && 0 <= j < order.len()
            && (#[trigger] order[i]) == (#[trigger] edges[e]).1 && (#[trigger] order[j])
            == edges[e].0 ==> j < i
}

/// `order` is a topological order of the graph with `n` nodes and `edges`.
pub open spec fn is_topological_order(order: Seq<usize>, n: nat, edges: Seq<(int, int)>) -> bool {
    lists_every_node(order, n) && sources_first(order, edges)
}

/// `Graph::new`: the new graph has no node and no edge.
#[verifier::external_body]
pub(crate) fn graph_new() -> (g: StepGraph)
    ensures
        graph_nodes(g).len() == 0,
        graph_edges(g).len() == 0,
{
    petgraph::graph::Graph::new()
}

/// `Graph::add_node`: the node is appended and gets the next index; the
/// edges stay. The graph must be below the limit of its 32-bit indices.
#[verifier::external_body]
pub(crate) fn graph_add_node(g: &mut StepGraph, node: StepNode) -> (idx: usize)
    requires
        graph_nodes(*old(g)).len() < u32::MAX,
    ensures
        idx == graph_nodes(*old(g)).len(),
        graph_nodes(*final(g)) == graph_nodes(*old(g)).push(node),
        graph_edges(*final(g)) == graph_edges(*old(g)),
{
    g.add_node(node).index()
}

/// `Graph::add_edge`: the edge is appended, parallel edges included; the
/// nodes stay. Both ends must exist and the graph must be below the limit of
/// its 32-bit indices.
#[verifier::external_body]
pub(crate) fn graph_add_edge(g: &mut StepGraph, from: usize, to: usize)
    requires
        from < graph_nodes(*old(g)).len(),
        to < graph_nodes(*old(g)).len(),
        graph_edges(*old(g)).len() < u32::MAX,
    ensures
        graph_nodes(*final(g)) == graph_nodes(*old(g)),
        graph_edges(*final(g)) == graph_edges(*old(g)).push((from as int, to as int)),
{
    g.add_edge(petgraph::graph::NodeIndex::new(from), petgraph::graph::NodeIndex::new(to), ());
}

/// Indexing a `Graph` by a node index: the weight of that node, which must
/// exist.
#[verifier::external_body]
pub(crate) fn graph_node(g: &StepGraph, idx: usize) -> (node: &StepNode)
    requires
        idx < graph_nodes(*g).len(),
    ensures
        *node == graph_nodes(*g)[idx as int],
{
    &g[petgraph::graph::NodeIndex::new(idx)]
}

/// `petgraph::algo::toposort`: on success every node is listed once, each
/// before its successors; on failure the node named lies on a cycle
/// (`Cycle::node_id`).
#[verifier::external_body]
pub(crate) fn graph_toposort(g: &StepGraph) -> (r: Result<Vec<usize>, usize>)
    ensures
        match r {
            Ok(order) => is_topological_order(order@, graph_nodes(*g).len(), graph_edges(*g)),
            Err(v) => v < graph_nodes(*g).len() && on_cycle(graph_edges(*g), v as int),
        },
{
    match petgraph::algo::toposort(g, None) {
        Ok(order) => Ok(order.into_iter().map(|i| i.index()).collect()),
        Err(cycle) => Err(cycle.node_id().index()),
    }
}

/// The place of node `v` in `order`.
pub open spec fn position_of(order: Seq<usize>, v: int) -> int {
    choose|i: int| 0 <= i < order.len() && order[i] == v
}

/// Along a path, a topological order only moves forward.
pub proof fn lemma_path_moves_forward(
    order: Seq<usize>,
    n: nat,
    edges: Seq<(int, int)>,
    path: Seq<int>,
)
    requires
        is_topological_order(order, n, edges),
        edges_in_range(edges, n),
        is_path(edges, path),
        path.len() >= 2,
    ensures
        position_of(order, path[0]) < position_of(order, path[path.len() - 1]),
    decreases path.len(),
{
    let m = path.len() - 1;
    assert(edges.contains((path[m - 1], path[m])));
    let e = choose|e: int| 0 <= e < edges.len() && edges[e] == (path[m - 1], path[m]);
    assert(0 <= edges[e].0 < n && 0 <= edges[e].1 < n);
    let a = path[m - 1];
    let b = path[m];
    assert(appears_in(order, a) && appears_in(order, b));
    let pa = position_of(order, a);
    let pb = position_of(order, b);
    assert(order[pb] == edges[e].1 && order[pa] == edges[e].0);
    assert(pa < pb);
    if path.len() > 2 {
        let shorter = path.drop_last();
        assert(is_path(edges, shorter)) by {
            assert forall|k: int| 0 <= k < shorter.len() - 1 implies edges.contains(
                (#[trigger] shorter[k], shorter[k + 1]),
            ) by {
                assert(edges.contains((path[k], path[k + 1])));
            }
        }
        lemma_path_moves_forward(order, n, edges, shorter);
    }
}

/// A graph that has a topological order has no cycle.
pub proof fn lemma_topological_order_excludes_cycles(
    order: Seq<usize>,
    n: nat,
    edges: Seq<(int, int)>,
)
    requires
        is_topological_order(order, n, edges),
        edges_in_range(edges, n),
    ensures
        !has_cycle(edges),
{
    if has_cycle(edges) {
        let v = choose|v: int| on_cycle(edges, v);
        let path = choose|path: Seq<int>|
            #![auto]
            path.len() >= 2 && path[0] == v && path[path.len() - 1] == v && is_path(edges, path);
        lemma_path_moves_forward(order, n, edges, path);
    }
}

} // verus!

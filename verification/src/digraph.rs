//! Directed graphs of named nodes, as the `petgraph` crate keeps them.
use crate::text::Str;
use petgraph::algo::toposort;
use petgraph::graph::{DiGraph, Graph, NodeIndex};
use petgraph::visit::{Bfs, Dfs, Reversed, Walker};
use petgraph::{Directed, Direction};
use vstd::prelude::*;

verus! {

/// The graph type of the `petgraph` crate.
#[verifier::external_type_specification]
#[verifier::external_body]
#[verifier::reject_recursive_types(N)]
#[verifier::reject_recursive_types(E)]
#[verifier::reject_recursive_types(Ty)]
#[verifier::reject_recursive_types(Ix)]
pub struct ExGraph<N, E, Ty, Ix>(Graph<N, E, Ty, Ix>);

/// The mark of a graph whose edges have a direction.
#[verifier::external_type_specification]
#[verifier::external_body]
pub struct ExDirected(Directed);

/// The names of a graph's nodes, in the order in which they were added.
pub uninterp spec fn nodes(g: DiGraph<String, ()>) -> Seq<Str>;

/// The edges of a graph, each from a node to a node, in the order in which they were added.
pub uninterp spec fn edges(g: DiGraph<String, ()>) -> Seq<(usize, usize)>;

/// `Graph::new` makes a graph without nodes and edges.
#[verifier::external_body]
pub(crate) fn graph_new() -> (g: DiGraph<String, ()>)
    ensures
        nodes(g) == Seq::<Str>::empty(),
        edges(g) == Seq::<(usize, usize)>::empty(),
{
    DiGraph::new()
}

/// `Graph::add_node` adds a node and returns its index, which is the number of nodes that
/// were there. It panics when the indices, which are 32 bits wide, run out.
#[verifier::external_body]
pub(crate) fn graph_add_node(g: &mut DiGraph<String, ()>, name: String) -> (i: usize)
    requires
        nodes(*old(g)).len() < u32::MAX,
    ensures
        nodes(*final(g)) == nodes(*old(g)).push(name@),
        edges(*final(g)) == edges(*old(g)),
        i == nodes(*old(g)).len(),
{
    g.add_node(name).index()
}

/// `Graph::add_edge` adds an edge between two nodes. It panics when one of them does not
/// exist, or when the indices of edges, which are 32 bits wide, run out.
#[verifier::external_body]
pub(crate) fn graph_add_edge(g: &mut DiGraph<String, ()>, from: usize, to: usize)
    requires
        from < nodes(*old(g)).len(),
        to < nodes(*old(g)).len(),
        edges(*old(g)).len() < u32::MAX,
    ensures
        nodes(*final(g)) == nodes(*old(g)),
        edges(*final(g)) == edges(*old(g)).push((from, to)),
{
    g.add_edge(NodeIndex::new(from), NodeIndex::new(to), ());
}

/// Indexing a graph by a node gives the node's weight, here its name. It panics when the
/// node does not exist.
#[verifier::external_body]
pub(crate) fn graph_name(g: &DiGraph<String, ()>, i: usize) -> (r: &String)
    requires
        i < nodes(*g).len(),
    ensures
        r@ == nodes(*g)[i as int],
{
    &g[NodeIndex::new(i)]
}

/// The targets of the edges that leave `i`, the newest edge first.
pub open spec fn targets_of(es: Seq<(usize, usize)>, i: usize) -> Seq<usize>
    decreases es.len(),
{
    if es.len() == 0 {
        Seq::empty()
    } else if es.last().0 == i {
        seq![es.last().1] + targets_of(es.drop_last(), i)
    } else {
        targets_of(es.drop_last(), i)
    }
}

/// The sources of the edges that enter `i`, the newest edge first.
pub open spec fn sources_of(es: Seq<(usize, usize)>, i: usize) -> Seq<usize>
    decreases es.len(),
{
    if es.len() == 0 {
        Seq::empty()
    } else if es.last().1 == i {
        seq![es.last().0] + sources_of(es.drop_last(), i)
    } else {
        sources_of(es.drop_last(), i)
    }
}

/// `Graph::neighbors_directed` with `Outgoing` lists the targets of the edges that leave a
/// node, the newest edge first.
#[verifier::external_body]
pub(crate) fn graph_targets(g: &DiGraph<String, ()>, i: usize) -> (r: Vec<usize>)
    requires
        i < nodes(*g).len(),
    ensures
        r@ == targets_of(edges(*g), i),
{
    g.neighbors_directed(NodeIndex::new(i), Direction::Outgoing).map(|n| n.index()).collect()
}

/// `Graph::neighbors_directed` with `Incoming` lists the sources of the edges that enter a
/// node, the newest edge first.
#[verifier::external_body]
pub(crate) fn graph_sources(g: &DiGraph<String, ()>, i: usize) -> (r: Vec<usize>)
    requires
        i < nodes(*g).len(),
    ensures
        r@ == sources_of(edges(*g), i),
{
    g.neighbors_directed(NodeIndex::new(i), Direction::Incoming).map(|n| n.index()).collect()
}

/// Whether there is an edge from the node at position `i` of a path to the next.
pub open spec fn steps(es: Seq<(usize, usize)>, path: Seq<usize>, i: int) -> bool {
    es.contains((path[i], path[i + 1]))
}

/// Whether edges lead along a path of nodes.
pub open spec fn is_path(es: Seq<(usize, usize)>, path: Seq<usize>) -> bool {
    path.len() > 0 && forall|i: int| 0 <= i < path.len() - 1 ==> #[trigger] steps(es, path, i)
}

/// Whether a path leads from `a` to `b`. The path may be `a` alone.
pub open spec fn reaches(es: Seq<(usize, usize)>, a: usize, b: usize) -> bool {
    exists|path: Seq<usize>| #[trigger]
        is_path(es, path) && path[0] == a && path.last() == b
}

/// Whether a path of at least one edge leads from `v` back to it.
pub open spec fn on_cycle(es: Seq<(usize, usize)>, v: usize) -> bool {
    exists|path: Seq<usize>| #[trigger]
        is_path(es, path) && path.len() > 1 && path[0] == v && path.last() == v
}

/// Whether a list holds each of the first `n` indices once, with every edge leading
/// forward in it.
pub open spec fn is_topo_order(n: nat, es: Seq<(usize, usize)>, order: Seq<usize>) -> bool {
    &&& order.len() == n
    &&& order.no_duplicates()
    &&& forall|i: int| 0 <= i < order.len() ==> #[trigger] order[i] < n
    &&& forall|i: int, j: int|
        0 <= i < n && 0 <= j < n && es.contains((#[trigger] order[i], #[trigger] order[j])) ==> i
            < j
}

/// The result of `toposort` on a graph with `n` nodes and the given edges: an order of the
/// nodes, or a node.
pub uninterp spec fn topo_result(n: nat, es: Seq<(usize, usize)>) -> Result<Seq<usize>, usize>;

/// `toposort` returns the nodes of a graph without cycles in an order in which every edge
/// leads forward. Of a graph with a cycle it returns a node that lies on one.
#[verifier::external_body]
pub(crate) fn graph_toposort(g: &DiGraph<String, ()>) -> (r: Result<Vec<usize>, usize>)
    ensures
        match r {
            Ok(order) => topo_result(nodes(*g).len(), edges(*g)) == Ok::<Seq<usize>, usize>(
                order@,
            ) && is_topo_order(nodes(*g).len(), edges(*g), order@),
            Err(v) => topo_result(nodes(*g).len(), edges(*g)) == Err::<Seq<usize>, usize>(v) && v
                < nodes(*g).len() && on_cycle(edges(*g), v),
        },
{
    match toposort(g, None) {
        Ok(order) => Ok(order.into_iter().map(|n| n.index()).collect()),
        Err(cycle) => Err(cycle.node_id().index()),
    }
}

/// Whether a list holds each node from which `start` can be reached once, and no other,
/// with `start` first.
pub open spec fn is_ancestry(es: Seq<(usize, usize)>, start: usize, list: Seq<usize>) -> bool {
    &&& list.len() > 0
    &&& list[0] == start
    &&& list.no_duplicates()
    &&& forall|v: usize| #[trigger] list.contains(v) <==> reaches(es, v, start)
}

/// The nodes that `Bfs` visits over the reversed edges from `start`, in their order.
pub uninterp spec fn bfs_back(es: Seq<(usize, usize)>, start: usize) -> Seq<usize>;

/// The nodes that `Dfs` visits over the reversed edges from `start`, in their order.
pub uninterp spec fn dfs_back(es: Seq<(usize, usize)>, start: usize) -> Seq<usize>;

/// `Bfs` on the `Reversed` graph visits once each node from which `start` can be reached,
/// beginning with `start`.
#[verifier::external_body]
pub(crate) fn graph_bfs_back(g: &DiGraph<String, ()>, start: usize) -> (r: Vec<usize>)
    requires
        start < nodes(*g).len(),
    ensures
        r@ == bfs_back(edges(*g), start),
        is_ancestry(edges(*g), start, r@),
        forall|i: int| 0 <= i < r@.len() ==> #[trigger] r@[i] < nodes(*g).len(),
{
    let back = Reversed(g);
    Bfs::new(back, NodeIndex::new(start)).iter(back).map(|n| n.index()).collect()
}

/// `Dfs` on the `Reversed` graph visits once each node from which `start` can be reached,
/// beginning with `start`.
#[verifier::external_body]
pub(crate) fn graph_dfs_back(g: &DiGraph<String, ()>, start: usize) -> (r: Vec<usize>)
    requires
        start < nodes(*g).len(),
    ensures
        r@ == dfs_back(edges(*g), start),
        is_ancestry(edges(*g), start, r@),
        forall|i: int| 0 <= i < r@.len() ==> #[trigger] r@[i] < nodes(*g).len(),
{
    let back = Reversed(g);
    Dfs::new(back, NodeIndex::new(start)).iter(back).map(|n| n.index()).collect()
}

} // verus!

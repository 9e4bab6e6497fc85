use vstd::prelude::*;
use crate::model::index_cycle_exists;

verus! {

#[verifier::external_type_specification]
#[verifier::external_body]
#[verifier::reject_recursive_types(N)]
#[verifier::reject_recursive_types(E)]
#[verifier::reject_recursive_types(Ty)]
#[verifier::reject_recursive_types(Ix)]
pub struct ExGraph<N, E, Ty, Ix>(petgraph::graph::Graph<N, E, Ty, Ix>);

#[verifier::external_type_specification]
#[verifier::external_body]
pub struct ExDirected(petgraph::Directed);

/// How many nodes a graph value holds.
pub uninterp spec fn graph_node_total(g: petgraph::graph::DiGraph<(), (), usize>) -> nat;

/// The directed edges a graph value holds, as (source, target) index pairs in
/// insertion order.
pub uninterp spec fn graph_edge_list(g: petgraph::graph::DiGraph<(), (), usize>) -> Seq<(int, int)>;

/// Relies on petgraph's `Graph::with_capacity`: a fresh graph holds no nodes
/// and no edges.
#[verifier::external_body]
pub(crate) fn graph_new() -> (g: petgraph::graph::DiGraph<(), (), usize>)
    ensures
        graph_node_total(g) == 0,
        graph_edge_list(g) == Seq::<(int, int)>::empty(),
{
    petgraph::graph::Graph::with_capacity(0, 0)
}

/// Relies on petgraph's `Graph::add_node`: it appends one node and leaves the
/// edges alone; with the `usize` index type its index-limit panic cannot fire.
#[verifier::external_body]
pub(crate) fn graph_add_node(g: &mut petgraph::graph::DiGraph<(), (), usize>)
    ensures
        graph_node_total(*final(g)) == graph_node_total(*old(g)) + 1,
        graph_edge_list(*final(g)) == graph_edge_list(*old(g)),
{
    g.add_node(());
}

/// Relies on petgraph's `Graph::add_edge`: it appends one directed edge from
/// `a` to `b` and leaves the nodes alone. It panics when an endpoint is not a
/// node, which the precondition rules out; with the `usize` index type its
/// edge-limit panic cannot fire.
#[verifier::external_body]
pub(crate) fn graph_add_edge(g: &mut petgraph::graph::DiGraph<(), (), usize>, a: usize, b: usize)
    requires
        a < graph_node_total(*old(g)),
        b < graph_node_total(*old(g)),
    ensures
        graph_node_total(*final(g)) == graph_node_total(*old(g)),
        graph_edge_list(*final(g)) == graph_edge_list(*old(g)).push((a as int, b as int)),
{
    g.add_edge(
        petgraph::graph::NodeIndex::new(a),
        petgraph::graph::NodeIndex::new(b),
        (),
    );
}

/// Relies on petgraph's `algo::is_cyclic_directed`: true exactly when the
/// directed graph contains a cycle, which is exactly when some closed walk
/// runs along its edge list.
#[verifier::external_body]
pub(crate) fn graph_is_cyclic(g: &petgraph::graph::DiGraph<(), (), usize>) -> (r: bool)
    ensures
        r == index_cycle_exists(graph_edge_list(*g)),
{
    petgraph::algo::is_cyclic_directed(g)
}

} // verus!

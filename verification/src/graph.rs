//! The constraint graph: a `petgraph` stable directed graph whose nodes are
//! lifetimes, reached only through the trusted items below.
//!
//! Its contents are described by two names: the node slots in index order
//! (`None` for a vacant slot), and for each node the list of its outgoing
//! neighbours in the order in which `petgraph` walks them.
use petgraph::algo::tarjan_scc;
use petgraph::stable_graph::{NodeIndex, StableDiGraph, StableGraph};
use petgraph::{Directed, Direction};
use vstd::prelude::*;
use crate::lifetimes::Lifetime;

verus! {

/// The graph of outlives constraints between lifetimes.
pub type ConstraintGraph = StableDiGraph<Lifetime, ()>;

#[verifier::external_type_specification]
#[verifier::external_body]
#[verifier::reject_recursive_types(N)]
#[verifier::reject_recursive_types(E)]
#[verifier::reject_recursive_types(Ty)]
#[verifier::reject_recursive_types(Ix)]
pub struct ExStableGraph<N, E, Ty, Ix>(StableGraph<N, E, Ty, Ix>);

#[verifier::external_type_specification]
#[verifier::external_body]
pub struct ExDirected(Directed);

/// The node slots of `g` in index order; a vacant slot is `None`.
pub uninterp spec fn graph_slots(g: ConstraintGraph) -> Seq<Option<Lifetime>>;

/// For each node index, the targets of its outgoing edges in the order in
/// which `petgraph` walks them (most recently added edge first). An index
/// without an entry has no outgoing edges.
pub uninterp spec fn graph_succs(g: ConstraintGraph) -> Map<usize, Seq<usize>>;

/// The number of edge slots that `g` has allocated (live and vacant).
pub uninterp spec fn graph_edge_slots(g: ConstraintGraph) -> nat;

/// What `tarjan_scc` returns for a graph with these node slots and
/// outgoing-neighbour lists.
pub uninterp spec fn tarjan_components(
    slots: Seq<Option<Lifetime>>,
    succs: Map<usize, Seq<usize>>,
) -> Seq<Seq<usize>>;

/// The outgoing neighbours of `a` recorded in `succs`.
pub open spec fn out_list(succs: Map<usize, Seq<usize>>, a: usize) -> Seq<usize> {
    if succs.contains_key(a) {
        succs[a]
    } else {
        seq![]
    }
}

/// `p` is a walk along the edges of `succs`: each node after the first is an
/// outgoing neighbour of the one before it.
pub open spec fn is_walk(succs: Map<usize, Seq<usize>>, p: Seq<usize>) -> bool {
    &&& p.len() >= 1
    &&& forall|i: int| #![trigger p[i]] 0 <= i < p.len() - 1 ==> out_list(succs, p[i]).contains(p[i + 1])
}

/// Some walk along the edges of `succs` leads from `a` to `b`.
pub open spec fn reaches(succs: Map<usize, Seq<usize>>, a: usize, b: usize) -> bool {
    exists|p: Seq<usize>| #[trigger] is_walk(succs, p) && p[0] == a && p.last() == b
}

/// `a` and `b` reach each other along the edges of `succs`.
pub open spec fn mutually_reachable(succs: Map<usize, Seq<usize>>, a: usize, b: usize) -> bool {
    reaches(succs, a, b) && reaches(succs, b, a)
}

/// Every slot of `slots` holds a node.
pub open spec fn all_occupied(slots: Seq<Option<Lifetime>>) -> bool {
    forall|i: int| 0 <= i < slots.len() ==> #[trigger] slots[i] is Some
}

/// `StableGraph::default`: an empty graph.
#[verifier::external_body]
pub fn graph_new() -> (g: ConstraintGraph)
    ensures
        graph_slots(g).len() == 0,
        graph_succs(g).dom().is_empty(),
        graph_edge_slots(g) == 0,
{
    StableGraph::default()
}

/// `StableGraph::add_node`: adds a node of weight `w` and returns its index.
/// When the graph has no vacant slot the node takes the next index; with a
/// vacant slot petgraph reuses one, and this contract then says only that the
/// returned index holds the new node. Panics only when the index space (`u32`)
/// is full, which the `requires` excludes.
#[verifier::external_body]
pub fn graph_add_node(g: &mut ConstraintGraph, w: Lifetime) -> (r: usize)
    requires
        graph_slots(*old(g)).len() < u32::MAX,
    ensures
        r < graph_slots(*final(g)).len(),
        graph_slots(*final(g))[r as int] == Some(w),
        graph_edge_slots(*final(g)) == graph_edge_slots(*old(g)),
        all_occupied(graph_slots(*old(g))) ==> {
            &&& graph_slots(*final(g)) == graph_slots(*old(g)).push(Some(w))
            &&& r == graph_slots(*old(g)).len()
            &&& graph_succs(*final(g)) == graph_succs(*old(g))
        },
{
    g.add_node(w).index()
}

/// `StableGraph::add_edge`: adds an edge from `a` to `b`. The new edge is
/// put at the front of `a`'s outgoing list. It uses at most one new edge slot.
/// Panics when a node does not exist or the edge index space (`u32`) is full,
/// which the `requires` excludes.
#[verifier::external_body]
pub fn graph_add_edge(g: &mut ConstraintGraph, a: usize, b: usize)
    requires
        a < graph_slots(*old(g)).len(),
        b < graph_slots(*old(g)).len(),
        graph_slots(*old(g))[a as int] is Some,
        graph_slots(*old(g))[b as int] is Some,
        graph_slots(*old(g)).len() <= u32::MAX,
        graph_edge_slots(*old(g)) < u32::MAX,
    ensures
        graph_slots(*final(g)) == graph_slots(*old(g)),
        graph_succs(*final(g)) == graph_succs(*old(g)).insert(
            a,
            seq![b] + out_list(graph_succs(*old(g)), a),
        ),
        graph_edge_slots(*final(g)) <= graph_edge_slots(*old(g)) + 1,
{
    g.add_edge(NodeIndex::new(a), NodeIndex::new(b), ());
}

/// `StableGraph::node_count`: the number of nodes, which is the number of
/// slots when none is vacant.
#[verifier::external_body]
pub fn graph_node_count(g: &ConstraintGraph) -> (r: usize)
    ensures
        all_occupied(graph_slots(*g)) ==> r == graph_slots(*g).len(),
{
    g.node_count()
}

/// `StableGraph::node_weight`: the weight of node `i`, if the slot exists
/// and is occupied.
#[verifier::external_body]
pub fn graph_node_weight(g: &ConstraintGraph, i: usize) -> (r: Option<Lifetime>)
    requires
        i < u32::MAX,
    ensures
        r == if i < graph_slots(*g).len() {
            graph_slots(*g)[i as int]
        } else {
            None
        },
{
    g.node_weight(NodeIndex::new(i)).copied()
}

/// `StableGraph::node_indices`: the indices of the occupied slots, in
/// increasing order (all indices when no slot is vacant).
#[verifier::external_body]
pub fn graph_node_indices(g: &ConstraintGraph) -> (r: Vec<usize>)
    ensures
        all_occupied(graph_slots(*g)) ==> r@ == Seq::new(
            graph_slots(*g).len(),
            |i: int| i as usize,
        ),
{
    g.node_indices().map(|n| n.index()).collect()
}

/// `StableGraph::neighbors_directed(a, Outgoing)`: the targets of the
/// outgoing edges of `a`, most recently added first; none if `a` is not a
/// node.
#[verifier::external_body]
pub fn graph_out_neighbors(g: &ConstraintGraph, a: usize) -> (r: Vec<usize>)
    requires
        a < u32::MAX,
    ensures
        (a < graph_slots(*g).len() && graph_slots(*g)[a as int] is Some) ==> r@ == out_list(
            graph_succs(*g),
            a,
        ),
        !(a < graph_slots(*g).len() && graph_slots(*g)[a as int] is Some) ==> r@.len() == 0,
{
    g.neighbors_directed(NodeIndex::new(a), Direction::Outgoing).map(|n| n.index()).collect()
}

/// `petgraph::algo::tarjan_scc`: the strongly connected components of `g`,
/// each a list of node indices. The result is named (it depends only on the
/// node slots and the neighbour lists). As the documentation says, the
/// components are the strongly connected components: each index is an
/// occupied node, every occupied node is in a component, two nodes of one
/// component reach each other, and nodes of different components do not.
/// The order of the components and of the nodes in each is not stated.
#[verifier::external_body]
pub fn graph_sccs(g: &ConstraintGraph) -> (r: Vec<Vec<usize>>)
    ensures
        r@.map_values(|c: Vec<usize>| c@) == tarjan_components(graph_slots(*g), graph_succs(*g)),
        forall|i: int, j: int|
            0 <= i < r@.len() && 0 <= j < r@[i]@.len() ==> {
                &&& #[trigger] r@[i]@[j] < graph_slots(*g).len()
                &&& graph_slots(*g)[r@[i]@[j] as int] is Some
            },
        forall|i: int, j1: int, j2: int|
            0 <= i < r@.len() && 0 <= j1 < r@[i]@.len() && 0 <= j2 < r@[i]@.len()
                ==> mutually_reachable(graph_succs(*g), #[trigger] r@[i]@[j1], #[trigger] r@[i]@[j2]),
        forall|i1: int, j1: int, i2: int, j2: int|
            0 <= i1 < r@.len() && 0 <= j1 < r@[i1]@.len() && 0 <= i2 < r@.len() && 0 <= j2
                < r@[i2]@.len() && i1 != i2 ==> !mutually_reachable(
                graph_succs(*g),
                #[trigger] r@[i1]@[j1],
                #[trigger] r@[i2]@[j2],
            ),
        forall|n: int|
            0 <= n < graph_slots(*g).len() && (#[trigger] graph_slots(*g)[n]) is Some ==> exists|
                i: int,
                j: int,
            | 0 <= i < r@.len() && 0 <= j < r@[i]@.len() && #[trigger] r@[i]@[j] == n,
{
    tarjan_scc(g).into_iter().map(|c| c.into_iter().map(|n| n.index()).collect()).collect()
}

} // verus!

use vstd::prelude::*;

verus! {

/// `petgraph::Graph`, carried as an opaque value.
#[verifier::external_type_specification]
#[verifier::external_body]
#[verifier::reject_recursive_types(N)]
#[verifier::reject_recursive_types(E)]
#[verifier::reject_recursive_types(Ty)]
#[verifier::reject_recursive_types(Ix)]
pub struct ExGraph<N, E, Ty, Ix>(petgraph::Graph<N, E, Ty, Ix>);

/// `petgraph::Directed`, the marker of a graph whose edges have a direction.
#[verifier::external_type_specification]
#[verifier::external_body]
pub struct ExDirected(petgraph::Directed);

/// `petgraph::graph::NodeIndex`, named only in the type of a workspace.
#[verifier::external_type_specification]
#[verifier::external_body]
#[verifier::reject_recursive_types(Ix)]
pub struct ExNodeIndex<Ix>(petgraph::graph::NodeIndex<Ix>);

/// `fixedbitset::FixedBitSet`, named only in the type of a workspace.
#[verifier::external_type_specification]
#[verifier::external_body]
pub struct ExFixedBitSet(fixedbitset::FixedBitSet);

/// `petgraph::algo::DfsSpace`, the workspace of a path search, carried as
/// an opaque value.
#[verifier::external_type_specification]
#[verifier::external_body]
#[verifier::reject_recursive_types(N)]
#[verifier::reject_recursive_types(VM)]
pub struct ExDfsSpace<N, VM>(petgraph::algo::DfsSpace<N, VM>);

/// How many nodes a `petgraph::Graph` holds. Its nodes are numbered from
/// zero in the order in which they were added.
pub uninterp spec fn graph_node_count(g: petgraph::Graph<(), ()>) -> nat;

/// The edges that a `petgraph::Graph` holds, as pairs of source and target
/// node number, in the order in which they were added.
pub uninterp spec fn graph_arcs(g: petgraph::Graph<(), ()>) -> Seq<(int, int)>;

/// The largest number of nodes, and of edges, that a graph indexed by
/// `u32` takes: `petgraph` keeps the index `u32::MAX` for "none".
pub const INDEX_LIMIT: usize = 0xffff_ffff;

/// Whether `walk` follows the arcs: it has a first node, and each of its
/// steps is one of `arcs`, taken from source to target.
pub open spec fn is_walk(arcs: Seq<(int, int)>, walk: Seq<int>) -> bool {
    &&& walk.len() >= 1
    &&& forall|i: int| 0 <= i < walk.len() - 1 ==> arcs.contains((#[trigger] walk[i], walk[i + 1]))
}

/// Whether some walk along `arcs` starts at `from` and ends at `to`. A node
/// reaches itself by the walk without steps.
#[verifier::opaque]
pub open spec fn reachable(arcs: Seq<(int, int)>, from: int, to: int) -> bool {
    exists|walk: Seq<int>| #[trigger] is_walk(arcs, walk) && walk.first() == from && walk.last() == to
}

/// Every node reaches itself.
pub proof fn lemma_reaches_itself(arcs: Seq<(int, int)>, n: int)
    ensures
        reachable(arcs, n, n),
{
    reveal(reachable);
    assert(is_walk(arcs, seq![n]));
    assert(seq![n].first() == n && seq![n].last() == n);
}

/// A node that no arc leads to is reached from itself only.
pub proof fn lemma_reached_without_arc(arcs: Seq<(int, int)>, from: int, to: int)
    requires
        reachable(arcs, from, to),
        forall|e: int| 0 <= e < arcs.len() ==> (#[trigger] arcs[e]).1 != to,
    ensures
        from == to,
{
    reveal(reachable);
    let walk = choose|walk: Seq<int>| #[trigger]
        is_walk(arcs, walk) && walk.first() == from && walk.last() == to;
    if walk.len() >= 2 {
        let last = walk.len() - 2;
        assert(arcs.contains((walk[last], walk[last + 1])));
        let e = choose|e: int| 0 <= e < arcs.len() && arcs[e] == (walk[last], to);
        assert(arcs[e].1 == to);
    }
}

/// `petgraph::Graph::new`: a directed graph without nodes or edges.
#[verifier::external_body]
pub(crate) fn graph_new() -> (g: petgraph::Graph<(), ()>)
    ensures
        graph_node_count(g) == 0,
        graph_arcs(g) == Seq::<(int, int)>::empty(),
{
    petgraph::Graph::new()
}

/// `petgraph::Graph::node_count`: the number of nodes.
#[verifier::external_body]
pub(crate) fn node_count(g: &petgraph::Graph<(), ()>) -> (n: usize)
    ensures
        n == graph_node_count(*g),
{
    g.node_count()
}

/// `petgraph::Graph::edge_count`: the number of edges.
#[verifier::external_body]
pub(crate) fn edge_count(g: &petgraph::Graph<(), ()>) -> (n: usize)
    ensures
        n == graph_arcs(*g).len(),
{
    g.edge_count()
}

/// `petgraph::Graph::add_node`: adds one node and returns its number, which
/// is the number of nodes before the call; the edges stay. The call panics
/// on a graph that is at its node limit, which `requires` leaves out.
#[verifier::external_body]
pub(crate) fn add_node(g: &mut petgraph::Graph<(), ()>) -> (node: usize)
    requires
        graph_node_count(*old(g)) < INDEX_LIMIT,
    ensures
        node == graph_node_count(*old(g)),
        graph_node_count(*final(g)) == graph_node_count(*old(g)) + 1,
        graph_arcs(*final(g)) == graph_arcs(*old(g)),
{
    g.add_node(()).index()
}

/// `petgraph::Graph::add_edge`: appends the edge from `a` to `b` after the
/// edges that are there and returns its number; the nodes stay. The call
/// panics where a node does not exist or the graph is at its edge limit,
/// which `requires` leaves out.
#[verifier::external_body]
pub(crate) fn add_edge(g: &mut petgraph::Graph<(), ()>, a: usize, b: usize) -> (edge: usize)
    requires
        a < graph_node_count(*old(g)),
        b < graph_node_count(*old(g)),
        graph_arcs(*old(g)).len() < INDEX_LIMIT,
    ensures
        edge == graph_arcs(*old(g)).len(),
        graph_node_count(*final(g)) == graph_node_count(*old(g)),
        graph_arcs(*final(g)) == graph_arcs(*old(g)).push((a as int, b as int)),
{
    g.add_edge(petgraph::graph::NodeIndex::new(a), petgraph::graph::NodeIndex::new(b), ()).index()
}

/// `petgraph::Graph::edge_endpoints`: the source and the target of the edge
/// with number `e`.
#[verifier::external_body]
pub(crate) fn edge_endpoints(g: &petgraph::Graph<(), ()>, e: usize) -> (ends: Option<(usize, usize)>)
    requires
        e < graph_arcs(*g).len(),
    ensures
        ends is Some,
        ends matches Some(pair) ==> (pair.0 as int, pair.1 as int) == graph_arcs(*g)[e as int],
{
    g.edge_endpoints(petgraph::graph::EdgeIndex::new(e)).map(|(a, b)| (a.index(), b.index()))
}

/// `petgraph::algo::DfsSpace::new`: a workspace for searches in `g`.
#[verifier::external_body]
pub(crate) fn dfs_space(g: &petgraph::Graph<(), ()>) -> (space: petgraph::algo::DfsSpace<
    petgraph::graph::NodeIndex,
    fixedbitset::FixedBitSet,
>) {
    petgraph::algo::DfsSpace::new(g)
}

/// `petgraph::algo::has_path_connecting`: whether a path along the edges
/// leads from `from` to `to`; a node has a path to itself. The workspace is
/// reset before the search, so what it held does not matter.
#[verifier::external_body]
pub(crate) fn has_path_connecting(
    g: &petgraph::Graph<(), ()>,
    from: usize,
    to: usize,
    space: &mut petgraph::algo::DfsSpace<petgraph::graph::NodeIndex, fixedbitset::FixedBitSet>,
) -> (found: bool)
    requires
        from < graph_node_count(*g),
        to < graph_node_count(*g),
    ensures
        found == reachable(graph_arcs(*g), from as int, to as int),
{
    petgraph::algo::has_path_connecting(
        g,
        petgraph::graph::NodeIndex::new(from),
        petgraph::graph::NodeIndex::new(to),
        Some(space),
    )
}

} // verus!

//! The link graph and the operations that build it.
use vstd::prelude::*;
use petgraph::graphmap::GraphMap;
use petgraph::Undirected;

verus! {

#[verifier::external_type_specification]
#[verifier::external_body]
#[verifier::reject_recursive_types(N)]
#[verifier::reject_recursive_types(E)]
#[verifier::reject_recursive_types(Ty)]
#[verifier::reject_recursive_types(S)]
pub struct ExGraphMap<N, E, Ty, S>(GraphMap<N, E, Ty, S>) where S: core::hash::BuildHasher;

#[verifier::external_type_specification]
#[verifier::external_body]
pub struct ExUndirected(Undirected);

/// An undirected graph whose nodes are satellite indices and whose edges are
/// the links between them.
pub type Topology = GraphMap<usize, (), Undirected>;

/// What a topology holds: for each node, the set of its neighbours.
pub uninterp spec fn adjacency(g: Topology) -> Map<usize, Set<usize>>;

/// The neighbours of `x` in `m`, empty where `x` is not a node.
pub open spec fn neighbours(m: Map<usize, Set<usize>>, x: usize) -> Set<usize> {
    if m.contains_key(x) {
        m[x]
    } else {
        Set::empty()
    }
}

/// `m` with `x` as a node; unchanged where it already is one.
pub open spec fn with_node(m: Map<usize, Set<usize>>, x: usize) -> Map<usize, Set<usize>> {
    if m.contains_key(x) {
        m
    } else {
        m.insert(x, Set::empty())
    }
}

/// `m` with the undirected link `a`-`b`, adding either end as a node where
/// it is not one yet.
pub open spec fn with_link(m: Map<usize, Set<usize>>, a: usize, b: usize) -> Map<usize, Set<usize>> {
    let m1 = m.insert(a, neighbours(m, a).insert(b));
    m1.insert(b, neighbours(m1, b).insert(a))
}

/// `m` describes an undirected link graph over the satellites `0..sats`:
/// every satellite is a node and nothing else is, no node is linked to itself,
/// and every link is seen from both ends.
pub open spec fn is_link_graph(m: Map<usize, Set<usize>>, sats: usize) -> bool {
    &&& forall|x: usize| #[trigger] m.contains_key(x) <==> x < sats
    &&& forall|x: usize, y: usize|
        m.contains_key(x) && #[trigger] m[x].contains(y) ==> x != y && m.contains_key(y)
            && m[y].contains(x)
}

/// Relies on `GraphMap::new`: a new graph has no node.
#[verifier::external_body]
pub(crate) fn empty_topology() -> (r: Topology)
    ensures
        adjacency(r).dom() == Set::<usize>::empty(),
{
    GraphMap::new()
}

/// Relies on `GraphMap::add_node`: the node is added, with no neighbour,
/// unless it is already present.
#[verifier::external_body]
pub(crate) fn insert_node(g: &mut Topology, x: usize)
    ensures
        adjacency(*final(g)) == with_node(adjacency(*old(g)), x),
{
    g.add_node(x);
}

/// Relies on `GraphMap::add_edge` on an undirected graph: the edge `a`-`b`
/// is recorded in the adjacency of both ends, which are added as nodes where
/// missing; an edge already present only has its weight replaced.
#[verifier::external_body]
pub(crate) fn insert_link(g: &mut Topology, a: usize, b: usize)
    ensures
        adjacency(*final(g)) == with_link(adjacency(*old(g)), a, b),
{
    g.add_edge(a, b, ());
}

/// Links satellites `a` and `b`. Asking to link a satellite to itself leaves
/// the topology as it is: a topology never holds a self-loop.
pub fn add_edge(topology: &mut Topology, a: usize, b: usize)
    ensures
        a == b ==> adjacency(*final(topology)) == adjacency(*old(topology)),
        a != b ==> adjacency(*final(topology)) == with_link(adjacency(*old(topology)), a, b),
{
    if a != b {
        insert_link(topology, a, b);
    }
}

} // verus!

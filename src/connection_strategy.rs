//! Connection strategies, and the grid strategy that links each satellite to
//! its neighbours in its own orbital plane and in the planes beside it.
use vstd::prelude::*;
use vstd::arithmetic::div_mod::{lemma_fundamental_div_mod, lemma_fundamental_div_mod_converse};
use crate::topology::{add_edge, adjacency, empty_topology, insert_node, is_link_graph, with_link, with_node, Topology};

verus! {

/// The shape of a constellation, as far as a connection strategy needs it:
/// satellites `0..satellites`, laid out plane by plane in equal contiguous
/// blocks over `orbital_planes` planes.
#[derive(Clone, Copy, Debug, PartialEq, Eq)]
pub struct ConstellationLayout {
    pub satellites: usize,
    pub orbital_planes: usize,
}

/// Why a layout admits no grid.
#[derive(Clone, Copy, Debug, PartialEq, Eq, Structural)]
pub enum TopologyError {
    /// The constellation has no orbital plane.
    NoOrbitalPlanes,
    /// There are fewer satellites than planes, so a plane would be empty.
    FewerSatellitesThanPlanes,
}

/// An algorithm that decides which satellites of a constellation are linked.
pub trait ConnectionStrategy: Send {
    /// Builds a fresh topology over the satellites of `model`.
    fn run(&mut self, model: &ConstellationLayout) -> (r: Result<Topology, TopologyError>)
        ensures
            r matches Ok(g) ==> is_link_graph(adjacency(g), model.satellites),
    ;
}

/// Satellites per plane.
pub open spec fn plane_size(sats: usize, planes: usize) -> int {
    sats as int / planes as int
}

/// How many satellites belong to a full plane; the ones after them, the
/// remainder of the division, are left without links.
pub open spec fn covered_count(sats: usize, planes: usize) -> int {
    planes as int * plane_size(sats, planes)
}

/// The successor of satellite `x` in the ring of its own plane.
pub open spec fn intra_next(spp: int, x: int) -> int {
    if (x + 1) % spp == 0 {
        x + 1 - spp
    } else {
        x + 1
    }
}

/// The successor of satellite `x` in the ring of satellites that hold the
/// same slot in every plane; `n` satellites are covered.
pub open spec fn inter_next(spp: int, n: int, x: int) -> int {
    if x + spp < n {
        x + spp
    } else {
        x + spp - n
    }
}

/// Whether the grid links `x` and `y`: both are covered, they differ, and
/// one follows the other in a plane ring or in a slot ring.
pub open spec fn grid_linked(sats: usize, planes: usize, x: int, y: int) -> bool {
    let spp = plane_size(sats, planes);
    let n = covered_count(sats, planes);
    &&& 0 <= x < n
    &&& 0 <= y < n
    &&& x != y
    &&& {
        ||| y == intra_next(spp, x)
        ||| x == intra_next(spp, y)
        ||| y == inter_next(spp, n, x)
        ||| x == inter_next(spp, n, y)
    }
}

/// The grid over `sats` satellites in `planes` planes.
pub open spec fn grid_topology(sats: usize, planes: usize) -> Map<usize, Set<usize>> {
    Map::new(
        |x: usize| x < sats,
        |x: usize| Set::new(|y: usize| grid_linked(sats, planes, x as int, y as int)),
    )
}

/// What the grid strategy returns for `model`.
pub open spec fn grid_outcome(model: ConstellationLayout, r: Result<Topology, TopologyError>) -> bool {
    if model.orbital_planes == 0 {
        r == Err::<Topology, TopologyError>(TopologyError::NoOrbitalPlanes)
    } else if model.satellites < model.orbital_planes {
        r == Err::<Topology, TopologyError>(TopologyError::FewerSatellitesThanPlanes)
    } else {
        &&& r is Ok
        &&& adjacency(r->Ok_0) == grid_topology(model.satellites, model.orbital_planes)
    }
}

/// The links built so far: plane-ring successors of the satellites below
/// `ia`, and slot-ring successors of those below `ea`.
spec fn built(sats: usize, planes: usize, ia: int, ea: int, x: int, y: int) -> bool {
    let spp = plane_size(sats, planes);
    let n = covered_count(sats, planes);
    &&& 0 <= x < n
    &&& 0 <= y < n
    &&& x != y
    &&& {
        ||| x < ia && y == intra_next(spp, x)
        ||| x < ea && y == inter_next(spp, n, x)
    }
}

spec fn built_map(sats: usize, planes: usize, ia: int, ea: int) -> Map<usize, Set<usize>> {
    Map::new(
        |x: usize| x < sats,
        |x: usize|
            Set::new(
                |y: usize|
                    built(sats, planes, ia, ea, x as int, y as int) || built(
                        sats,
                        planes,
                        ia,
                        ea,
                        y as int,
                        x as int,
                    ),
            ),
    )
}

/// Adding the link `a`-`b` takes the links built at one stage to those of
/// the next, where the next stage adds that pair and nothing else.
proof fn lemma_link_step(
    sats: usize,
    planes: usize,
    ia: int,
    ea: int,
    ia2: int,
    ea2: int,
    a: usize,
    b: usize,
    forward: bool,
)
    requires
        a < sats,
        b < sats,
        forall|x: int, y: int|
            #[trigger] built(sats, planes, ia2, ea2, x, y) <==> built(sats, planes, ia, ea, x, y) || (a
                != b && if forward {
                x == a && y == b
            } else {
                x == b && y == a
            }),
    ensures
        a != b ==> with_link(built_map(sats, planes, ia, ea), a, b) == built_map(sats, planes, ia2, ea2),
        a == b ==> built_map(sats, planes, ia, ea) == built_map(sats, planes, ia2, ea2),
{
    let m = built_map(sats, planes, ia, ea);
    let m2 = built_map(sats, planes, ia2, ea2);
    let w = if a != b { with_link(m, a, b) } else { m };
    assert forall|x: usize| #[trigger] w.contains_key(x) implies w[x] =~= m2[x] by {
        assert forall|y: usize| w[x].contains(y) <==> #[trigger] m2[x].contains(y) by {
            let forth = built(sats, planes, ia2, ea2, x as int, y as int);
            let back = built(sats, planes, ia2, ea2, y as int, x as int);
        }
    }
    assert(w =~= m2);
}

/// The grid strategy: a ring through the satellites of each plane, and a
/// ring through the satellites that hold the same slot in every plane.
pub struct GridStrategy;

impl GridStrategy {
    pub fn new() -> GridStrategy {
        GridStrategy
    }
}

impl ConnectionStrategy for GridStrategy {
    /// Fails where the layout has no plane, or fewer satellites than planes.
    /// Otherwise every satellite is a node, and the satellites of the full
    /// planes are linked as `grid_topology` says; a ring of one satellite
    /// gives no link.
    fn run(&mut self, model: &ConstellationLayout) -> (r: Result<Topology, TopologyError>)
        ensures
            grid_outcome(*model, r),
    {
        let sats = model.satellites;
        let planes = model.orbital_planes;
        if planes == 0 {
            return Err(TopologyError::NoOrbitalPlanes);
        }
        if sats < planes {
            return Err(TopologyError::FewerSatellitesThanPlanes);
        }
        let mut topology = empty_topology();
        let mut sat: usize = 0;
        while sat < sats
            invariant
                sat <= sats,
                adjacency(topology) == Map::new(|x: usize| x < sat, |x: usize| Set::<usize>::empty()),
            decreases sats - sat,
        {
            insert_node(&mut topology, sat);
            assert(with_node(Map::new(|x: usize| x < sat, |x: usize| Set::<usize>::empty()), sat) =~= Map::new(
                |x: usize| x < sat + 1,
                |x: usize| Set::<usize>::empty(),
            ));
            sat = sat + 1;
        }
        assert(adjacency(topology) =~= built_map(sats, planes, 0, 0)) by {
            assert forall|x: usize| #[trigger] adjacency(topology).contains_key(x) implies adjacency(topology)[x]
                =~= built_map(sats, planes, 0, 0)[x] by {}
        }

        let spp = sats / planes;
        proof {
            lemma_fundamental_div_mod(sats as int, planes as int);
            assert(planes * spp <= sats) by (nonlinear_arith)
                requires
                    sats == planes * spp + sats % planes,
                    sats % planes >= 0,
            ;
            assert(spp >= 1) by (nonlinear_arith)
                requires
                    sats == planes * spp + sats % planes,
                    sats % planes < planes,
                    sats >= planes,
            ;
        }
        let covered = planes * spp;

        for plane in 0..planes
            invariant
                spp == plane_size(sats, planes),
                covered == covered_count(sats, planes),
                covered == planes * spp,
                covered <= sats,
                spp >= 1,
                adjacency(topology) == built_map(sats, planes, plane * spp, 0),
        {
            assert(plane * spp + spp <= covered) by (nonlinear_arith)
                requires
                    plane < planes,
                    covered == planes * spp,
            ;
            let start = plane * spp;
            for i in 0..(spp - 1)
                invariant
                    spp == plane_size(sats, planes),
                    covered == covered_count(sats, planes),
                    covered <= sats,
                    spp >= 1,
                    start == plane * spp,
                    start + spp <= covered,
                    adjacency(topology) == built_map(sats, planes, start + i, 0),
            {
                add_edge(&mut topology, start + i, start + i + 1);
                proof {
                    lemma_fundamental_div_mod_converse(start + i + 1, spp as int, plane as int, i + 1);
                    assert(intra_next(spp as int, start + i) == start + i + 1);
                    lemma_link_step(sats, planes, start + i, 0, start + i + 1, 0, (start + i) as usize, (start + i + 1) as usize, true);
                }
            }
            let last = start + spp - 1;
            add_edge(&mut topology, start, last);
            proof {
                assert(last + 1 == (plane + 1) * spp + 0) by (nonlinear_arith)
                    requires
                        last == start + spp - 1,
                        start == plane * spp,
                ;
                lemma_fundamental_div_mod_converse(last + 1, spp as int, plane + 1, 0);
                assert(intra_next(spp as int, last as int) == start);
                lemma_link_step(sats, planes, last as int, 0, last + 1, 0, start, last, false);
                assert((plane + 1) * spp == last + 1);
            }
        }

        assert(covered >= spp) by (nonlinear_arith)
            requires
                covered == planes * spp,
                planes >= 1,
        ;
        let last_plane = covered - spp;
        for plane in 0..(planes - 1)
            invariant
                spp == plane_size(sats, planes),
                covered == covered_count(sats, planes),
                covered == planes * spp,
                covered <= sats,
                spp >= 1,
                planes >= 1,
                last_plane == covered - spp,
                adjacency(topology) == built_map(sats, planes, covered as int, plane * spp),
        {
            assert(plane * spp + 2 * spp <= covered) by (nonlinear_arith)
                requires
                    plane + 1 < planes,
                    covered == planes * spp,
            ;
            let start = plane * spp;
            for s in 0..spp
                invariant
                    spp == plane_size(sats, planes),
                    covered == covered_count(sats, planes),
                    covered <= sats,
                    spp >= 1,
                    start == plane * spp,
                    start + 2 * spp <= covered,
                    adjacency(topology) == built_map(sats, planes, covered as int, start + s),
            {
                add_edge(&mut topology, start + s, start + spp + s);
                proof {
                    lemma_link_step(
                        sats,
                        planes,
                        covered as int,
                        start + s,
                        covered as int,
                        start + s + 1,
                        (start + s) as usize,
                        (start + spp + s) as usize,
                        true,
                    );
                }
            }
            assert((plane + 1) * spp == start + spp) by (nonlinear_arith)
                requires
                    start == plane * spp,
            ;
        }

        assert((planes - 1) * spp == last_plane) by (nonlinear_arith)
            requires
                last_plane == covered - spp,
                covered == planes * spp,
        ;
        for s in 0..spp
            invariant
                spp == plane_size(sats, planes),
                covered == covered_count(sats, planes),
                covered <= sats,
                spp >= 1,
                last_plane == covered - spp,
                adjacency(topology) == built_map(sats, planes, covered as int, last_plane + s),
        {
            add_edge(&mut topology, s, last_plane + s);
            proof {
                lemma_link_step(
                    sats,
                    planes,
                    covered as int,
                    last_plane + s,
                    covered as int,
                    last_plane + s + 1,
                    s,
                    (last_plane + s) as usize,
                    false,
                );
            }
        }

        assert(adjacency(topology) =~= grid_topology(sats, planes)) by {
            assert forall|x: usize| #[trigger] adjacency(topology).contains_key(x) implies adjacency(topology)[x]
                =~= grid_topology(sats, planes)[x] by {
                assert forall|y: usize| #[trigger] adjacency(topology)[x].contains(y) <==> grid_topology(sats, planes)[x].contains(y) by {
                    assert(built(sats, planes, covered as int, covered as int, x as int, y as int) || built(sats, planes, covered as int, covered as int, y as int, x as int) <==> grid_linked(sats, planes, x as int, y as int));
                }
            }
        }
        Ok(topology)
    }
}

} // verus!

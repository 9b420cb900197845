//! Properties of the grid that hold for every layout.
use vstd::prelude::*;
use vstd::arithmetic::div_mod::{lemma_fundamental_div_mod, lemma_fundamental_div_mod_converse};
use vstd::set_lib::range_set_properties;
use crate::connection_strategy::{
    covered_count, grid_linked, grid_outcome, grid_topology, inter_next, intra_next, plane_size,
    ConstellationLayout, TopologyError,
};
use crate::topology::{adjacency, Topology};

verus! {

/// The predecessor of satellite `x` in the ring of its own plane.
pub open spec fn intra_prev(spp: int, x: int) -> int {
    if x % spp == 0 {
        x + spp - 1
    } else {
        x - 1
    }
}

/// The predecessor of satellite `x` in its slot ring; `n` satellites are
/// covered.
pub open spec fn inter_prev(spp: int, n: int, x: int) -> int {
    if x >= spp {
        x - spp
    } else {
        x + n - spp
    }
}

/// Where the successor of `y` in its plane ring wraps round.
proof fn lemma_intra_next_mod(spp: int, y: int)
    requires
        spp >= 1,
        y >= 0,
    ensures
        (y + 1) % spp == 0 <==> y % spp == spp - 1,
{
    lemma_fundamental_div_mod(y, spp);
    let q = y / spp;
    let r = y % spp;
    if r == spp - 1 {
        assert(y + 1 == (q + 1) * spp + 0) by (nonlinear_arith)
            requires
                y == spp * q + r,
                r == spp - 1,
        ;
        lemma_fundamental_div_mod_converse(y + 1, spp, q + 1, 0);
    } else {
        assert(y + 1 == q * spp + (r + 1)) by (nonlinear_arith)
            requires
                y == spp * q + r,
        ;
        lemma_fundamental_div_mod_converse(y + 1, spp, q, r + 1);
    }
}

/// Stepping back in a plane ring undoes stepping forward.
proof fn lemma_intra_prev_inverts_next(spp: int, x: int, y: int)
    requires
        spp >= 1,
        x >= 0,
        y >= 0,
    ensures
        x == intra_next(spp, y) <==> y == intra_prev(spp, x),
{
    lemma_intra_next_mod(spp, y);
    lemma_fundamental_div_mod(y, spp);
    lemma_fundamental_div_mod(x, spp);
    let qy = y / spp;
    let ry = y % spp;
    let qx = x / spp;
    let rx = x % spp;
    if x == intra_next(spp, y) {
        if ry == spp - 1 {
            assert(x == qy * spp + 0) by (nonlinear_arith)
                requires
                    y == spp * qy + ry,
                    ry == spp - 1,
                    x == y + 1 - spp,
            ;
            lemma_fundamental_div_mod_converse(x, spp, qy, 0);
        } else {
            assert(x == qy * spp + (ry + 1)) by (nonlinear_arith)
                requires
                    y == spp * qy + ry,
                    x == y + 1,
            ;
            lemma_fundamental_div_mod_converse(x, spp, qy, ry + 1);
        }
    }
    if y == intra_prev(spp, x) {
        if rx == 0 {
            assert(y == qx * spp + (spp - 1)) by (nonlinear_arith)
                requires
                    x == spp * qx + rx,
                    rx == 0,
                    y == x + spp - 1,
            ;
            lemma_fundamental_div_mod_converse(y, spp, qx, spp - 1);
        } else {
            assert(y == qx * spp + (rx - 1)) by (nonlinear_arith)
                requires
                    x == spp * qx + rx,
                    y == x - 1,
            ;
            lemma_fundamental_div_mod_converse(y, spp, qx, rx - 1);
        }
    }
}

/// Both plane-ring neighbours of a covered satellite `x` lie in its own
/// plane, the block `[b, b + spp)` of the covered range.
proof fn lemma_intra_block(spp: int, planes: int, x: int) -> (b: int)
    requires
        spp >= 1,
        planes >= 1,
        0 <= x < planes * spp,
    ensures
        0 <= b <= x < b + spp <= planes * spp,
        b <= intra_next(spp, x) < b + spp,
        b <= intra_prev(spp, x) < b + spp,
        spp >= 2 ==> intra_next(spp, x) != x && intra_prev(spp, x) != x,
        spp >= 3 ==> intra_next(spp, x) != intra_prev(spp, x),
{
    lemma_intra_next_mod(spp, x);
    lemma_fundamental_div_mod(x, spp);
    let q = x / spp;
    let r = x % spp;
    assert(0 <= q * spp <= x && x == q * spp + r && (q + 1) * spp <= planes * spp && q * spp + spp == (q + 1) * spp) by (nonlinear_arith)
        requires
            x == spp * q + r,
            0 <= r < spp,
            0 <= x < planes * spp,
            spp >= 1,
    ;
    q * spp
}

/// On a constellation whose satellites fill at least three planes evenly,
/// with at least three satellites in each, every satellite is a node and
/// has exactly four links: two in its plane and two across planes.
pub proof fn lemma_full_grid_degree_four(sats: usize, planes: usize)
    requires
        planes >= 3,
        sats % planes == 0,
        sats / planes >= 3,
    ensures
        grid_topology(sats, planes).dom().len() == sats,
        forall|x: usize| x < sats ==> (#[trigger] grid_topology(sats, planes)[x]).len() == 4,
{
    let spp = plane_size(sats, planes);
    let n = covered_count(sats, planes);
    lemma_fundamental_div_mod(sats as int, planes as int);
    assert(n == sats);
    assert(n >= 3 * spp) by (nonlinear_arith)
        requires
            n == planes * spp,
            planes >= 3,
            spp >= 3,
    ;
    assert(grid_topology(sats, planes).dom() =~= Set::<usize>::range(0, sats));
    range_set_properties::<usize>(0, sats);
    assert forall|x: usize| x < sats implies (#[trigger] grid_topology(sats, planes)[x]).len() == 4 by {
        let xi = x as int;
        let b = lemma_intra_block(spp, planes as int, xi);
        let a1 = intra_next(spp, xi);
        let a2 = intra_prev(spp, xi);
        let c1 = inter_next(spp, n, xi);
        let c2 = inter_prev(spp, n, xi);
        let four = set![a1 as usize, a2 as usize, c1 as usize, c2 as usize];
        assert forall|y: usize| #[trigger] grid_topology(sats, planes)[x].contains(y) <==> four.contains(y) by {
            lemma_intra_prev_inverts_next(spp, xi, y as int);
        }
        assert(grid_topology(sats, planes)[x] =~= four);
    }
}

/// Satellites past the last full plane are nodes without any link.
pub proof fn lemma_remainder_isolated(sats: usize, planes: usize, x: usize)
    requires
        planes >= 1,
        covered_count(sats, planes) <= x < sats,
    ensures
        grid_topology(sats, planes).contains_key(x),
        grid_topology(sats, planes)[x].is_empty(),
{
    assert(grid_topology(sats, planes)[x] =~= Set::empty());
}

/// The grid depends on the numbers of satellites and planes alone: two
/// layouts with the same counts get the same outcome and the same links,
/// so building again, or at another time, changes no link.
pub proof fn lemma_grid_depends_on_counts_only(
    m1: ConstellationLayout,
    m2: ConstellationLayout,
    r1: Result<Topology, TopologyError>,
    r2: Result<Topology, TopologyError>,
)
    requires
        m1.satellites == m2.satellites,
        m1.orbital_planes == m2.orbital_planes,
        grid_outcome(m1, r1),
        grid_outcome(m2, r2),
    ensures
        r1 is Ok <==> r2 is Ok,
        r1 is Ok ==> adjacency(r1->Ok_0) == adjacency(r2->Ok_0),
        r1 is Err ==> r1 == r2,
{
}

} // verus!

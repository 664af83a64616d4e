//! The output metric: total Manhattan wirelength over all edges.

use vstd::prelude::*;

use crate::problem::Coordinate;
use crate::problem::Edge;
use crate::problem::abs1;
use crate::problem::coords_view;
use crate::problem::edges_view;
use crate::problem::MAX_COORD;
use crate::problem::MAX_EDGES;
use crate::solver::ROUND_BOUND;

verus! {

/// Bound on the Manhattan length of one edge: each endpoint coordinate has
/// magnitude at most `ROUND_BOUND` (solved cells) or `MAX_COORD` (static
/// cells, a smaller bound), so one edge contributes at most
/// `4 * ROUND_BOUND`.
pub const EDGE_LEN_BOUND: i64 = 4611686020428;

/// The coordinate of the cell with global index `idx`: a static cell below
/// `statics.len()`, otherwise a floating cell.
pub open spec fn cell_coord(statics: Seq<(int, int)>, floats: Seq<(int, int)>, idx: int) -> (
    int,
    int,
) {
    if idx < statics.len() {
        statics[idx]
    } else {
        floats[idx - statics.len()]
    }
}

/// Total Manhattan distance over the first `k` edges.
pub open spec fn manhattan_upto(
    edges: Seq<(int, int)>,
    statics: Seq<(int, int)>,
    floats: Seq<(int, int)>,
    k: int,
) -> int
    decreases k,
{
    if k <= 0 {
        0
    } else {
        let ca = cell_coord(statics, floats, edges[k - 1].0);
        let cb = cell_coord(statics, floats, edges[k - 1].1);
        manhattan_upto(edges, statics, floats, k - 1) + abs1(ca.0 - cb.0) + abs1(ca.1 - cb.1)
    }
}

/// Total Manhattan distance over all edges.
pub open spec fn manhattan(
    edges: Seq<(int, int)>,
    statics: Seq<(int, int)>,
    floats: Seq<(int, int)>,
) -> int {
    manhattan_upto(edges, statics, floats, edges.len() as int)
}

/// Coordinate magnitudes within the bounds the pipeline guarantees: statics
/// from the input range, floats from the solver's output range.
pub open spec fn coords_in_range(statics: Seq<(int, int)>, floats: Seq<(int, int)>) -> bool {
    &&& forall|k: int|
        0 <= k < statics.len() ==> abs1((#[trigger] statics[k]).0) <= MAX_COORD && abs1(
            statics[k].1,
        ) <= MAX_COORD
    &&& forall|k: int|
        0 <= k < floats.len() ==> abs1((#[trigger] floats[k]).0) <= ROUND_BOUND && abs1(
            floats[k].1,
        ) <= ROUND_BOUND
}

/// Every edge endpoint is a valid global cell index.
pub open spec fn edges_in_range(edges: Seq<(int, int)>, total: int) -> bool {
    forall|k: int|
        0 <= k < edges.len() ==> 0 <= (#[trigger] edges[k]).0 < total && 0 <= edges[k].1 < total
}

/// The total over `k` in-range edges stays below `k * EDGE_LEN_BOUND`.
proof fn lemma_manhattan_bound(
    edges: Seq<(int, int)>,
    statics: Seq<(int, int)>,
    floats: Seq<(int, int)>,
    k: int,
)
    requires
        coords_in_range(statics, floats),
        edges_in_range(edges, statics.len() + floats.len() as int),
        0 <= k <= edges.len(),
    ensures
        0 <= manhattan_upto(edges, statics, floats, k) <= k * EDGE_LEN_BOUND,
    decreases k,
{
    if k > 0 {
        lemma_manhattan_bound(edges, statics, floats, k - 1);
        let e = edges[k - 1];
        let ns = statics.len() as int;
        if e.0 < ns {
            assert(abs1(statics[e.0].0) <= MAX_COORD && abs1(statics[e.0].1) <= MAX_COORD);
        } else {
            assert(abs1(floats[e.0 - ns].0) <= ROUND_BOUND && abs1(floats[e.0 - ns].1)
                <= ROUND_BOUND);
        }
        if e.1 < ns {
            assert(abs1(statics[e.1].0) <= MAX_COORD && abs1(statics[e.1].1) <= MAX_COORD);
        } else {
            assert(abs1(floats[e.1 - ns].0) <= ROUND_BOUND && abs1(floats[e.1 - ns].1)
                <= ROUND_BOUND);
        }
        let ca = cell_coord(statics, floats, e.0);
        let cb = cell_coord(statics, floats, e.1);
        assert(abs1(ca.0 - cb.0) + abs1(ca.1 - cb.1) <= EDGE_LEN_BOUND);
        assert(k * EDGE_LEN_BOUND == (k - 1) * EDGE_LEN_BOUND + EDGE_LEN_BOUND)
            by (nonlinear_arith);
    }
}

/// The total Manhattan wirelength as an `i64`: the sum over all edges of the
/// per-axis coordinate distances, resolving each endpoint by the global
/// index convention.
pub fn manhattan_total(
    edges: &Vec<Edge>,
    static_cells: &Vec<Coordinate>,
    floating_cells: &Vec<Coordinate>,
) -> (r: i64)
    requires
        edges@.len() <= MAX_EDGES,
        coords_in_range(coords_view(static_cells@), coords_view(floating_cells@)),
        edges_in_range(
            edges_view(edges@),
            static_cells@.len() + floating_cells@.len() as int,
        ),
    ensures
        r as int == manhattan(
            edges_view(edges@),
            coords_view(static_cells@),
            coords_view(floating_cells@),
        ),
        r >= 0,
{
    let ghost ev = edges_view(edges@);
    let ghost sv = coords_view(static_cells@);
    let ghost fv = coords_view(floating_cells@);
    let ns = static_cells.len();
    let mut length: i64 = 0;
    let mut k: usize = 0;
    while k < edges.len()
        invariant
            k <= edges@.len(),
            edges@.len() <= MAX_EDGES,
            ns == static_cells@.len(),
            ev == edges_view(edges@),
            sv == coords_view(static_cells@),
            fv == coords_view(floating_cells@),
            coords_in_range(sv, fv),
            edges_in_range(ev, sv.len() + fv.len() as int),
            length as int == manhattan_upto(ev, sv, fv, k as int),
            0 <= length as int <= (k as int) * EDGE_LEN_BOUND,
        decreases edges@.len() - k,
    {
        let edge = &edges[k];
        proof {
            assert(ev[k as int] == (edge.node_a as int, edge.node_b as int));
            lemma_manhattan_bound(ev, sv, fv, k as int + 1);
        }
        let ca: Coordinate = if edge.node_a < ns {
            static_cells[edge.node_a]
        } else {
            floating_cells[edge.node_a - ns]
        };
        let cb: Coordinate = if edge.node_b < ns {
            static_cells[edge.node_b]
        } else {
            floating_cells[edge.node_b - ns]
        };
        proof {
            assert((ca.x as int, ca.y as int) == cell_coord(sv, fv, ev[k as int].0));
            assert((cb.x as int, cb.y as int) == cell_coord(sv, fv, ev[k as int].1));
        }
        let dx = if ca.x >= cb.x {
            ca.x - cb.x
        } else {
            cb.x - ca.x
        };
        let dy = if ca.y >= cb.y {
            ca.y - cb.y
        } else {
            cb.y - ca.y
        };
        length = length + dx + dy;
        k = k + 1;
    }
    length
}

/// Total Manhattan wirelength over all edges, resolving each endpoint index
/// to a static or solved floating coordinate.  A pure function of its
/// arguments: two calls on the same inputs return the same value.
pub fn calculate_manhattan(
    edges: &Vec<Edge>,
    static_cells: &Vec<Coordinate>,
    floating_cells: &Vec<Coordinate>,
) -> (r: usize)
    requires
        edges@.len() <= MAX_EDGES,
        coords_in_range(coords_view(static_cells@), coords_view(floating_cells@)),
        edges_in_range(
            edges_view(edges@),
            static_cells@.len() + floating_cells@.len() as int,
        ),
        manhattan(
            edges_view(edges@),
            coords_view(static_cells@),
            coords_view(floating_cells@),
        ) <= usize::MAX,
    ensures
        r as int == manhattan(
            edges_view(edges@),
            coords_view(static_cells@),
            coords_view(floating_cells@),
        ),
{
    let total = manhattan_total(edges, static_cells, floating_cells);
    total as usize
}

} // verus!

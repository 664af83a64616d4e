//! The connectivity graph that the placement pipeline consumes: static cell
//! coordinates, the count of floating cells, and an edge list over global
//! cell indices.
//!
//! Global index convention: indices `[0, numStatic)` name static cells,
//! indices `[numStatic, numStatic + numFloating)` name floating cells.

use vstd::prelude::*;

verus! {

/// Upper bound on the number of floating cells (rows of the linear system),
/// chosen so every intermediate of the fixed-point relaxation fits in `i128`.
pub const MAX_DIM: usize = 131072;

/// Upper bound on the number of edges, chosen for the same reason.
pub const MAX_EDGES: usize = 1048576;

/// Bound on the magnitude of a static cell coordinate (the 32-bit range the
/// input format allows).
pub const MAX_COORD: i64 = 2147483648;

/// Tolerances above this scaled value are clamped to it.  Every tracked sweep
/// delta is far below it, so clamping never changes when the solver stops.
pub const TOL_CLAMP: i64 = 4611686018427387904;

/// A 2-D integer point.
#[derive(Clone, Copy, Debug, PartialEq, Eq, Structural)]
pub struct Coordinate {
    pub x: i64,
    pub y: i64,
}

/// An unordered pairwise connection between two cells, by global index.
#[derive(Clone, Copy, Debug, PartialEq, Eq, Structural)]
pub struct Edge {
    pub node_a: usize,
    pub node_b: usize,
}

/// The mathematical model of a connectivity graph: the tolerance as a
/// fixed-point integer, the floating cell count, and plain integer sequences
/// for static coordinates and edges.
pub ghost struct GraphModel {
    pub tol: int,
    pub floating: int,
    pub statics: Seq<(int, int)>,
    pub edges: Seq<(int, int)>,
}

impl GraphModel {
    /// Number of static cells.
    pub open spec fn num_static(self) -> int {
        self.statics.len() as int
    }

    /// Total number of cells, static and floating.
    pub open spec fn total_cells(self) -> int {
        self.num_static() + self.floating
    }

    /// Structural validity: a positive (clamped) tolerance, counts within the
    /// machine limits of the fixed-point arithmetic, coordinates in the
    /// 32-bit range, and every edge endpoint below the total cell count.
    pub open spec fn wf(self) -> bool {
        &&& 1 <= self.tol <= TOL_CLAMP
        &&& 0 <= self.floating <= MAX_DIM
        &&& self.edges.len() <= MAX_EDGES
        &&& forall|k: int|
            0 <= k < self.statics.len() ==> abs1((#[trigger] self.statics[k]).0) <= MAX_COORD
                && abs1(self.statics[k].1) <= MAX_COORD
        &&& forall|k: int|
            0 <= k < self.edges.len() ==> 0 <= (#[trigger] self.edges[k]).0 < self.total_cells()
                && 0 <= self.edges[k].1 < self.total_cells()
    }
}

/// A sequence of coordinates as integer pairs.
pub open spec fn coords_view(s: Seq<Coordinate>) -> Seq<(int, int)> {
    s.map(|i: int, c: Coordinate| (c.x as int, c.y as int))
}

/// A sequence of edges as integer index pairs.
pub open spec fn edges_view(s: Seq<Edge>) -> Seq<(int, int)> {
    s.map(|i: int, e: Edge| (e.node_a as int, e.node_b as int))
}

/// Absolute value of a mathematical integer.
pub open spec fn abs1(v: int) -> int {
    if v < 0 {
        -v
    } else {
        v
    }
}

/// A parsed, validated placement problem: the exact executable counterpart of
/// a well-formed `GraphModel`.
pub struct Problem {
    /// Convergence tolerance, scaled by the solver's fixed-point scale.
    pub solve_diff: i64,
    pub floating_cells: usize,
    pub static_cells: Vec<Coordinate>,
    pub edges: Vec<Edge>,
}

impl View for Problem {
    type V = GraphModel;

    open spec fn view(&self) -> GraphModel {
        GraphModel {
            tol: self.solve_diff as int,
            floating: self.floating_cells as int,
            statics: coords_view(self.static_cells@),
            edges: edges_view(self.edges@),
        }
    }
}

} // verus!

//! The coefficient matrix of the placement normal equations.
//!
//! For each edge the weighted-Laplacian construction adds 2 to the diagonal
//! of every floating endpoint and subtracts 2 from the two coupling entries
//! of a floating-floating edge; edges to static cells instead contribute
//! twice the static coordinate to the right-hand-side vectors.

use vstd::prelude::*;

use crate::problem::GraphModel;
use crate::problem::Problem;
use crate::problem::abs1;
use crate::problem::MAX_COORD;

verus! {

/// Bound on the magnitude of any coefficient matrix entry built from at most
/// `MAX_EDGES` edges: each edge moves an entry by at most 2.
pub const ENTRY_BOUND: i64 = 2097152;

/// Bound on the magnitude of any right-hand-side entry built from at most
/// `MAX_EDGES` edges over coordinates of magnitude at most `MAX_COORD`.
pub const RHS_BOUND: i64 = 4503599627370496;

/// What one edge adds to the matrix entry at `(i, j)`, with `ns` static
/// cells.  A static-static edge adds nothing; a static-floating edge adds 2
/// to the floating diagonal; a floating-floating edge adds 2 to both
/// diagonals and -2 to the two coupling entries.
pub open spec fn edge_delta(ns: int, e: (int, int), i: int, j: int) -> int {
    let a = e.0;
    let b = e.1;
    if a < ns && b < ns {
        0
    } else if a < ns {
        if i == j && i == b - ns {
            2
        } else {
            0
        }
    } else if b < ns {
        if i == j && i == a - ns {
            2
        } else {
            0
        }
    } else {
        (if i == j && i == a - ns {
            2int
        } else {
            0int
        }) + (if i == j && i == b - ns {
            2int
        } else {
            0int
        }) + (if i == a - ns && j == b - ns {
            -2int
        } else {
            0int
        }) + (if i == b - ns && j == a - ns {
            -2int
        } else {
            0int
        })
    }
}

/// The matrix entry at `(i, j)` after folding the first `k` edges.
pub open spec fn mat_entry_upto(g: GraphModel, i: int, j: int, k: int) -> int
    decreases k,
{
    if k <= 0 {
        0
    } else {
        mat_entry_upto(g, i, j, k - 1) + edge_delta(g.num_static(), g.edges[k - 1], i, j)
    }
}

/// The coefficient matrix entry at `(i, j)` for the whole edge list.
pub open spec fn mat_entry(g: GraphModel, i: int, j: int) -> int {
    mat_entry_upto(g, i, j, g.edges.len() as int)
}

/// What one edge adds to the right-hand-side entry of floating cell `f`
/// (x axis if `x_axis`, else y axis): twice the coordinate of the static
/// endpoint of a static-floating edge incident to `f`.
pub open spec fn rhs_delta(g: GraphModel, e: (int, int), f: int, x_axis: bool) -> int {
    let ns = g.num_static();
    if e.0 < ns && e.1 >= ns {
        if e.1 - ns == f {
            2 * (if x_axis {
                g.statics[e.0].0
            } else {
                g.statics[e.0].1
            })
        } else {
            0
        }
    } else if e.0 >= ns && e.1 < ns {
        if e.0 - ns == f {
            2 * (if x_axis {
                g.statics[e.1].0
            } else {
                g.statics[e.1].1
            })
        } else {
            0
        }
    } else {
        0
    }
}

/// The right-hand-side entry of floating cell `f` after the first `k` edges.
pub open spec fn rhs_entry_upto(g: GraphModel, f: int, x_axis: bool, k: int) -> int
    decreases k,
{
    if k <= 0 {
        0
    } else {
        rhs_entry_upto(g, f, x_axis, k - 1) + rhs_delta(g, g.edges[k - 1], f, x_axis)
    }
}

/// The right-hand-side entry of floating cell `f` for the whole edge list.
pub open spec fn rhs_entry(g: GraphModel, f: int, x_axis: bool) -> int {
    rhs_entry_upto(g, f, x_axis, g.edges.len() as int)
}

/// Every edge moves an entry by at most 2, so after `k` edges every entry
/// has magnitude at most `2 * k`.
pub proof fn lemma_entry_bound(g: GraphModel, i: int, j: int, k: int)
    requires
        0 <= k,
    ensures
        abs1(mat_entry_upto(g, i, j, k)) <= 2 * k,
    decreases k,
{
    if k > 0 {
        lemma_entry_bound(g, i, j, k - 1);
    }
}

/// Every edge moves a right-hand-side entry by at most `2 * MAX_COORD`.
pub proof fn lemma_rhs_bound(g: GraphModel, f: int, x_axis: bool, k: int)
    requires
        g.wf(),
        0 <= k <= g.edges.len(),
    ensures
        abs1(rhs_entry_upto(g, f, x_axis, k)) <= 2 * MAX_COORD * k,
    decreases k,
{
    if k > 0 {
        lemma_rhs_bound(g, f, x_axis, k - 1);
        let e = g.edges[k - 1];
        let ns = g.num_static();
        if e.0 < ns && e.1 >= ns {
            assert(abs1(g.statics[e.0].0) <= MAX_COORD);
            assert(abs1(g.statics[e.0].1) <= MAX_COORD);
        } else if e.0 >= ns && e.1 < ns {
            assert(abs1(g.statics[e.1].0) <= MAX_COORD);
            assert(abs1(g.statics[e.1].1) <= MAX_COORD);
        }
        assert(abs1(rhs_delta(g, e, f, x_axis)) <= 2 * MAX_COORD);
        assert(2 * MAX_COORD * k == 2 * MAX_COORD * (k - 1) + 2 * MAX_COORD) by (nonlinear_arith);
    }
}

/// Every edge adds a non-negative amount to a diagonal entry.
pub proof fn lemma_diag_nonneg(g: GraphModel, i: int, k: int)
    requires
        0 <= k,
    ensures
        mat_entry_upto(g, i, i, k) >= 0,
    decreases k,
{
    if k > 0 {
        lemma_diag_nonneg(g, i, k - 1);
    }
}

/// A square integer matrix of dimension `size`.
pub struct Matrix {
    pub size: usize,
    pub values: Vec<Vec<i64>>,
}

impl View for Matrix {
    type V = Seq<Seq<int>>;

    open spec fn view(&self) -> Seq<Seq<int>> {
        self.values@.map(|i: int, row: Vec<i64>| row@.map(|j: int, v: i64| v as int))
    }
}

impl Matrix {
    /// The matrix is square with dimension `size`.
    pub open spec fn wf(&self) -> bool {
        &&& self.values@.len() == self.size
        &&& forall|r: int| 0 <= r < self.size ==> (#[trigger] self.values@[r])@.len() == self.size
    }

    /// A zero matrix of dimension `size`.
    pub fn new(size: usize) -> (m: Matrix)
        ensures
            m.wf(),
            m.size == size,
            forall|i: int, j: int| 0 <= i < size && 0 <= j < size ==> #[trigger] m@[i][j] == 0,
    {
        let mut values: Vec<Vec<i64>> = Vec::new();
        let mut r: usize = 0;
        while r < size
            invariant
                r <= size,
                values@.len() == r,
                forall|i: int| 0 <= i < r ==> (#[trigger] values@[i])@.len() == size,
                forall|i: int, j: int|
                    0 <= i < r && 0 <= j < size ==> #[trigger] values@[i]@[j] == 0i64,
            decreases size - r,
        {
            let mut row: Vec<i64> = Vec::new();
            let mut c: usize = 0;
            while c < size
                invariant
                    c <= size,
                    row@.len() == c,
                    forall|j: int| 0 <= j < c ==> #[trigger] row@[j] == 0i64,
                decreases size - c,
            {
                row.push(0);
                c = c + 1;
            }
            values.push(row);
            r = r + 1;
        }
        Matrix { size, values }
    }

    /// Adds the self-weight of one edge endpoint: 2 on the diagonal of
    /// `node`.
    pub fn add_node_view(&mut self, node: usize)
        requires
            old(self).wf(),
            node < old(self).size,
            abs1(old(self)@[node as int][node as int]) <= TOUCH_BOUND,
        ensures
            final(self).wf(),
            final(self).size == old(self).size,
            forall|i: int, j: int|
                0 <= i < final(self).size && 0 <= j < final(self).size
                    ==> #[trigger] final(self)@[i][j] == old(self)@[i][j] + (if i == j && i
                    == node {
                    2int
                } else {
                    0int
                }),
    {
        let v = self.values[node][node];
        self.set_entry(node, node, v + 2);
    }

    /// Adds one floating-floating edge: self-weight on both diagonals and a
    /// -2 coupling term at the two off-diagonal positions.
    pub fn add_edge_view(&mut self, node_a: usize, node_b: usize)
        requires
            old(self).wf(),
            node_a < old(self).size,
            node_b < old(self).size,
            abs1(old(self)@[node_a as int][node_a as int]) <= EDGE_TOUCH_BOUND,
            abs1(old(self)@[node_b as int][node_b as int]) <= EDGE_TOUCH_BOUND,
            abs1(old(self)@[node_a as int][node_b as int]) <= EDGE_TOUCH_BOUND,
            abs1(old(self)@[node_b as int][node_a as int]) <= EDGE_TOUCH_BOUND,
        ensures
            final(self).wf(),
            final(self).size == old(self).size,
            forall|i: int, j: int|
                0 <= i < final(self).size && 0 <= j < final(self).size
                    ==> #[trigger] final(self)@[i][j] == old(self)@[i][j] + (if i == j && i
                    == node_a {
                    2int
                } else {
                    0int
                }) + (if i == j && i == node_b {
                    2int
                } else {
                    0int
                }) + (if i == node_a && j == node_b {
                    -2int
                } else {
                    0int
                }) + (if i == node_b && j == node_a {
                    -2int
                } else {
                    0int
                }),
    {
        self.add_node_view(node_a);
        self.add_node_view(node_b);
        proof {
            assert(self@[node_a as int][node_b as int] == self.values@[node_a as int]@[node_b
                as int] as int);
        }
        let v = self.values[node_a][node_b];
        self.set_entry(node_a, node_b, v - 2);
        proof {
            assert(self@[node_b as int][node_a as int] == self.values@[node_b as int]@[node_a
                as int] as int);
        }
        let w = self.values[node_b][node_a];
        self.set_entry(node_b, node_a, w - 2);
    }

    /// Replaces the single entry at `(r, c)` by `v`.
    fn set_entry(&mut self, r: usize, c: usize, v: i64)
        requires
            old(self).wf(),
            r < old(self).size,
            c < old(self).size,
        ensures
            final(self).wf(),
            final(self).size == old(self).size,
            forall|i: int, j: int|
                0 <= i < final(self).size && 0 <= j < final(self).size && !(i == r && j == c)
                    ==> #[trigger] final(self)@[i][j] == old(self)@[i][j],
            final(self)@[r as int][c as int] == v as int,
    {
        self.values[r][c] = v;
        proof {
            assert forall|i: int, j: int|
                0 <= i < self.size && 0 <= j < self.size && !(i == r && j == c) implies #[trigger] self@[i][j]
                == old(self)@[i][j] by {
                assert(self@[i] == self.values@[i]@.map(|jj: int, vv: i64| vv as int));
                assert(old(self)@[i] == old(self).values@[i]@.map(|jj: int, vv: i64| vv as int));
                assert(self.values@[i]@[j] == old(self).values@[i]@[j]);
            }
            assert(self@[r as int] == self.values@[r as int]@.map(|jj: int, vv: i64| vv as int));
        }
    }
}

/// Headroom demanded of an entry before 2 is added to it, far above anything
/// the builder produces.
pub const TOUCH_BOUND: i64 = 4611686018427387904;

/// Headroom demanded of the four entries an edge touches.
pub const EDGE_TOUCH_BOUND: i64 = 2305843009213693952;

/// Builds the coefficient matrix and the two right-hand-side vectors of the
/// normal equations for a well-formed connectivity graph.
pub fn build_system(prob: &Problem) -> (r: (Matrix, Vec<i64>, Vec<i64>))
    requires
        prob@.wf(),
    ensures
        r.0.wf(),
        r.0.size == prob.floating_cells,
        r.1@.len() == prob.floating_cells,
        r.2@.len() == prob.floating_cells,
        forall|i: int, j: int|
            0 <= i < prob@.floating && 0 <= j < prob@.floating ==> #[trigger] r.0@[i][j]
                == mat_entry(prob@, i, j),
        forall|f: int|
            0 <= f < prob@.floating ==> #[trigger] r.1@[f] as int == rhs_entry(prob@, f, true),
        forall|f: int|
            0 <= f < prob@.floating ==> #[trigger] r.2@[f] as int == rhs_entry(prob@, f, false),
{
    let ghost g = prob@;
    let nf = prob.floating_cells;
    let ns = prob.static_cells.len();
    let mut a = Matrix::new(nf);
    let mut xb: Vec<i64> = Vec::new();
    let mut yb: Vec<i64> = Vec::new();
    let mut f: usize = 0;
    while f < nf
        invariant
            f <= nf,
            xb@.len() == f,
            yb@.len() == f,
            forall|i: int| 0 <= i < f ==> #[trigger] xb@[i] == 0i64,
            forall|i: int| 0 <= i < f ==> #[trigger] yb@[i] == 0i64,
        decreases nf - f,
    {
        xb.push(0);
        yb.push(0);
        f = f + 1;
    }

    let num_edges = prob.edges.len();
    let mut k: usize = 0;
    while k < num_edges
        invariant
            prob@ == g,
            g.wf(),
            nf == prob.floating_cells,
            ns == prob.static_cells.len(),
            num_edges == prob.edges.len(),
            k <= num_edges,
            a.wf(),
            a.size == nf,
            xb@.len() == nf,
            yb@.len() == nf,
            forall|i: int, j: int|
                0 <= i < nf && 0 <= j < nf ==> #[trigger] a@[i][j] == mat_entry_upto(
                    g,
                    i,
                    j,
                    k as int,
                ),
            forall|i: int|
                0 <= i < nf ==> #[trigger] xb@[i] as int == rhs_entry_upto(g, i, true, k as int),
            forall|i: int|
                0 <= i < nf ==> #[trigger] yb@[i] as int == rhs_entry_upto(g, i, false, k as int),
        decreases num_edges - k,
    {
        let edge = &prob.edges[k];
        let ea = edge.node_a;
        let eb = edge.node_b;
        proof {
            assert(g.edges[k as int] == (ea as int, eb as int));
            assert(0 <= g.edges[k as int].0 < g.total_cells());
            assert(0 <= g.edges[k as int].1 < g.total_cells());
        }
        if ea < ns && eb >= ns {
            let s = ea;
            let fl = eb - ns;
            let cell = prob.static_cells[s];
            proof {
                assert(g.statics[s as int] == (cell.x as int, cell.y as int));
                assert(abs1(cell.x as int) <= MAX_COORD);
                assert(abs1(cell.y as int) <= MAX_COORD);
                lemma_rhs_bound(g, fl as int, true, k as int);
                lemma_rhs_bound(g, fl as int, false, k as int);
                lemma_entry_bound(g, fl as int, fl as int, k as int);
            }
            let xv = xb[fl];
            xb.set(fl, xv + cell.x * 2);
            let yv = yb[fl];
            yb.set(fl, yv + cell.y * 2);
            a.add_node_view(fl);
        } else if ea >= ns && eb < ns {
            let s = eb;
            let fl = ea - ns;
            let cell = prob.static_cells[s];
            proof {
                assert(g.statics[s as int] == (cell.x as int, cell.y as int));
                assert(abs1(cell.x as int) <= MAX_COORD);
                assert(abs1(cell.y as int) <= MAX_COORD);
                lemma_rhs_bound(g, fl as int, true, k as int);
                lemma_rhs_bound(g, fl as int, false, k as int);
                lemma_entry_bound(g, fl as int, fl as int, k as int);
            }
            let xv = xb[fl];
            xb.set(fl, xv + cell.x * 2);
            let yv = yb[fl];
            yb.set(fl, yv + cell.y * 2);
            a.add_node_view(fl);
        } else if ea >= ns && eb >= ns {
            let fa = ea - ns;
            let fb = eb - ns;
            proof {
                lemma_entry_bound(g, fa as int, fa as int, k as int);
                lemma_entry_bound(g, fb as int, fb as int, k as int);
                lemma_entry_bound(g, fa as int, fb as int, k as int);
                lemma_entry_bound(g, fb as int, fa as int, k as int);
            }
            a.add_edge_view(fa, fb);
        }
        k = k + 1;
    }
    (a, xb, yb)
}

/// Helper for the symmetry law: each edge's contribution is symmetric.
proof fn lemma_matrix_symmetric_upto(g: GraphModel, i: int, j: int, k: int)
    requires
        0 <= k,
    ensures
        mat_entry_upto(g, i, j, k) == mat_entry_upto(g, j, i, k),
    decreases k,
{
    if k > 0 {
        lemma_matrix_symmetric_upto(g, i, j, k - 1);
    }
}

/// Matrix symmetry law: for every connectivity graph the built coefficient
/// matrix satisfies `A[i][j] == A[j][i]` at every position.
pub proof fn lemma_matrix_symmetric(g: GraphModel, i: int, j: int)
    ensures
        mat_entry(g, i, j) == mat_entry(g, j, i),
{
    lemma_matrix_symmetric_upto(g, i, j, g.edges.len() as int);
}

/// Whether edge `e` is incident to floating cell `f`; self-loops are
/// excluded, as they cancel in the construction.
pub open spec fn incident(ns: int, e: (int, int), f: int) -> bool {
    ||| (e.0 < ns && e.1 >= ns && e.1 - ns == f)
    ||| (e.0 >= ns && e.1 < ns && e.0 - ns == f)
    ||| (e.0 >= ns && e.1 >= ns && e.0 != e.1 && (e.0 - ns == f || e.1 - ns == f))
}

/// The number of the first `k` edges incident to floating cell `f`.
pub open spec fn degree_upto(g: GraphModel, f: int, k: int) -> int
    decreases k,
{
    if k <= 0 {
        0
    } else {
        degree_upto(g, f, k - 1) + (if incident(g.num_static(), g.edges[k - 1], f) {
            1int
        } else {
            0int
        })
    }
}

/// The degree of floating cell `f`: its number of incident edges, counting
/// edges to both static and floating neighbours.
pub open spec fn degree(g: GraphModel, f: int) -> int {
    degree_upto(g, f, g.edges.len() as int)
}

/// The diagonal entry of a floating cell is twice its degree.
proof fn lemma_diag_degree_upto(g: GraphModel, f: int, k: int)
    requires
        0 <= k,
    ensures
        mat_entry_upto(g, f, f, k) == 2 * degree_upto(g, f, k),
    decreases k,
{
    if k > 0 {
        lemma_diag_degree_upto(g, f, k - 1);
    }
}

/// Off-diagonal entries only ever decrease: they stay at or below zero.
pub proof fn lemma_offdiag_nonpos(g: GraphModel, i: int, j: int, k: int)
    requires
        0 <= k,
        i != j,
    ensures
        mat_entry_upto(g, i, j, k) <= 0,
    decreases k,
{
    if k > 0 {
        lemma_offdiag_nonpos(g, i, j, k - 1);
    }
}

/// Sum of the absolute off-diagonal entries of row `i` over columns
/// `0 .. cols`, after the first `ke` edges.
pub open spec fn row_off_abs_upto(g: GraphModel, i: int, ke: int, cols: int) -> int
    decreases cols,
{
    if cols <= 0 {
        0
    } else {
        row_off_abs_upto(g, i, ke, cols - 1) + (if cols - 1 == i {
            0int
        } else {
            abs1(mat_entry_upto(g, i, cols - 1, ke))
        })
    }
}

/// Sum of the absolute off-diagonal entries of row `i`.
pub open spec fn row_off_abs(g: GraphModel, i: int) -> int {
    row_off_abs_upto(g, i, g.edges.len() as int, g.floating)
}

/// An edge that changes no off-diagonal entry of row `i` keeps its sum.
proof fn lemma_off_sum_same(g: GraphModel, i: int, ke: int, cols: int)
    requires
        forall|j: int|
            0 <= j < cols && j != i ==> mat_entry_upto(g, i, j, ke + 1) == mat_entry_upto(
                g,
                i,
                j,
                ke,
            ),
    ensures
        row_off_abs_upto(g, i, ke + 1, cols) == row_off_abs_upto(g, i, ke, cols),
    decreases cols,
{
    if cols > 0 {
        lemma_off_sum_same(g, i, ke, cols - 1);
    }
}

/// An edge that changes row `i` only at column `j0` moves its sum by the
/// change in that entry's magnitude.
proof fn lemma_off_sum_one(g: GraphModel, i: int, ke: int, cols: int, j0: int)
    requires
        0 <= j0 < cols,
        j0 != i,
        forall|j: int|
            0 <= j < cols && j != i && j != j0 ==> mat_entry_upto(g, i, j, ke + 1)
                == mat_entry_upto(g, i, j, ke),
    ensures
        row_off_abs_upto(g, i, ke + 1, cols) == row_off_abs_upto(g, i, ke, cols) + abs1(
            mat_entry_upto(g, i, j0, ke + 1),
        ) - abs1(mat_entry_upto(g, i, j0, ke)),
    decreases cols,
{
    if j0 == cols - 1 {
        lemma_off_sum_same(g, i, ke, cols - 1);
    } else {
        lemma_off_sum_one(g, i, ke, cols - 1, j0);
    }
}

/// Before any edge, every off-diagonal row sum is zero.
proof fn lemma_off_sum_zero(g: GraphModel, i: int, cols: int)
    ensures
        row_off_abs_upto(g, i, 0, cols) == 0,
    decreases cols,
{
    if cols > 0 {
        lemma_off_sum_zero(g, i, cols - 1);
    }
}

/// Row dominance, edge by edge: each edge adds at least as much to the
/// diagonal as to the off-diagonal magnitudes of its row.
proof fn lemma_diag_dominance_upto(g: GraphModel, i: int, k: int)
    requires
        g.wf(),
        0 <= i < g.floating,
        0 <= k <= g.edges.len(),
    ensures
        row_off_abs_upto(g, i, k, g.floating) <= mat_entry_upto(g, i, i, k),
    decreases k,
{
    if k > 0 {
        lemma_diag_dominance_upto(g, i, k - 1);
        let e = g.edges[k - 1];
        let ns = g.num_static();
        if e.0 >= ns && e.1 >= ns && e.0 != e.1 {
            let fa = e.0 - ns;
            let fb = e.1 - ns;
            assert(0 <= fa < g.floating && 0 <= fb < g.floating);
            if i == fa {
                assert forall|j: int|
                    0 <= j < g.floating && j != i && j != fb implies mat_entry_upto(g, i, j, k)
                    == mat_entry_upto(g, i, j, k - 1) by {
                    assert(edge_delta(ns, e, i, j) == 0);
                }
                lemma_off_sum_one(g, i, k - 1, g.floating, fb);
                lemma_offdiag_nonpos(g, i, fb, k - 1);
                assert(edge_delta(ns, e, i, fb) == -2);
                assert(edge_delta(ns, e, i, i) == 2);
                assert(abs1(mat_entry_upto(g, i, fb, k)) == abs1(mat_entry_upto(g, i, fb, k - 1))
                    + 2);
            } else if i == fb {
                assert forall|j: int|
                    0 <= j < g.floating && j != i && j != fa implies mat_entry_upto(g, i, j, k)
                    == mat_entry_upto(g, i, j, k - 1) by {
                    assert(edge_delta(ns, e, i, j) == 0);
                }
                lemma_off_sum_one(g, i, k - 1, g.floating, fa);
                lemma_offdiag_nonpos(g, i, fa, k - 1);
                assert(edge_delta(ns, e, i, fa) == -2);
                assert(edge_delta(ns, e, i, i) == 2);
                assert(abs1(mat_entry_upto(g, i, fa, k)) == abs1(mat_entry_upto(g, i, fa, k - 1))
                    + 2);
            } else {
                assert forall|j: int|
                    0 <= j < g.floating && j != i implies mat_entry_upto(g, i, j, k)
                    == mat_entry_upto(g, i, j, k - 1) by {
                    assert(edge_delta(ns, e, i, j) == 0);
                }
                lemma_off_sum_same(g, i, k - 1, g.floating);
                assert(edge_delta(ns, e, i, i) == 0);
            }
        } else {
            assert forall|j: int|
                0 <= j < g.floating && j != i implies mat_entry_upto(g, i, j, k) == mat_entry_upto(
                g,
                i,
                j,
                k - 1,
            ) by {
                assert(edge_delta(ns, e, i, j) == 0);
            }
            lemma_off_sum_same(g, i, k - 1, g.floating);
            assert(edge_delta(ns, e, i, i) >= 0);
        }
    } else {
        lemma_off_sum_zero(g, i, g.floating);
    }
}

/// Diagonal dominance law: for every floating cell of a well-formed graph,
/// the diagonal entry equals twice its degree and dominates the sum of the
/// absolute off-diagonal entries of its row.
pub proof fn lemma_diagonal_dominance(g: GraphModel, i: int)
    requires
        g.wf(),
        0 <= i < g.floating,
    ensures
        mat_entry(g, i, i) == 2 * degree(g, i),
        row_off_abs(g, i) <= mat_entry(g, i, i),
{
    lemma_diag_degree_upto(g, i, g.edges.len() as int);
    lemma_diag_dominance_upto(g, i, g.edges.len() as int);
}

} // verus!

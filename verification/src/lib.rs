//! An analytical ("quadratic") placer for objects on a 2-D integer plane.
//!
//! Given fixed ("static") cells, a number of movable ("floating") cells and a
//! list of pairwise connections, the library builds the weighted-Laplacian
//! normal equations of the least-squares placement objective, solves them per
//! axis by Gauss-Seidel relaxation over fixed-point integers, and reports the
//! total Manhattan wirelength of the resulting placement.

use vstd::prelude::*;

pub mod error;
pub mod matrix;
pub mod parse;
pub mod problem;
pub mod solver;
pub mod wirelength;

pub use error::ErrorKind;
pub use error::PlacerError;
pub use matrix::Matrix;
pub use matrix::build_system;
pub use parse::parse;
pub use problem::Coordinate;
pub use problem::Edge;
pub use problem::Problem;
pub use wirelength::calculate_manhattan;

use matrix::degree;
use matrix::lemma_diagonal_dominance;
use matrix::mat_entry;
use matrix::rhs_entry;
use matrix::lemma_entry_bound;
use matrix::lemma_rhs_bound;
use matrix::lemma_diag_nonneg;
use matrix::ENTRY_BOUND;
use matrix::RHS_BOUND;
use parse::fault_why;
use parse::spec_parse;
use problem::GraphModel;
use problem::abs1;
use problem::coords_view;
use problem::MAX_EDGES;
use solver::has_zero_diag;
use solver::ints64;
use solver::solve_result;
use solver::ROUND_BOUND;
use wirelength::coords_in_range;
use wirelength::edges_in_range;
use wirelength::manhattan;
use wirelength::manhattan_total;

verus! {

/// Run configuration: the single input file name.
pub struct Config {
    filename: String,
}

impl View for Config {
    type V = Seq<char>;

    closed spec fn view(&self) -> Seq<char> {
        self.filename@
    }
}

impl Config {
    /// Builds a configuration from the command-line arguments: the first
    /// argument is the program name, the second the input file name.
    pub fn new(args: &Vec<String>) -> (r: Result<Config, PlacerError>)
        ensures
            r is Ok <==> args@.len() == 2,
            r is Ok ==> r->Ok_0@ == args@[1]@,
            r is Err ==> r->Err_0.kind == ErrorKind::MalformedProblem,
    {
        if 2 != args.len() {
            return Err(PlacerError {
                kind: ErrorKind::MalformedProblem,
                why: "Invalid number of arguments, expected 2.",
            });
        }

        let filename = args[1].clone();
        Ok(Config { filename })
    }

    /// The configured input file name.
    pub fn filename(&self) -> (r: &String)
        ensures
            r@ == self@,
    {
        &self.filename
    }
}

/// The coefficient matrix of the normal equations of `g`.
pub open spec fn built_matrix(g: GraphModel) -> Seq<Seq<int>> {
    Seq::new(g.floating as nat, |i: int| Seq::new(g.floating as nat, |j: int| mat_entry(g, i, j)))
}

/// One right-hand-side vector of the normal equations of `g`.
pub open spec fn built_rhs(g: GraphModel, x_axis: bool) -> Seq<int> {
    Seq::new(g.floating as nat, |f: int| rhs_entry(g, f, x_axis))
}

/// The solved floating cell coordinates of `g`: the capped Gauss-Seidel
/// result per axis over the built system, or the failure category.
pub open spec fn placement_result(g: GraphModel) -> Result<Seq<(int, int)>, ErrorKind> {
    let a = built_matrix(g);
    if has_zero_diag(a) {
        Err(ErrorKind::SingularSystem)
    } else {
        let xr = solve_result(a, built_rhs(g, true), g.tol);
        let yr = solve_result(a, built_rhs(g, false), g.tol);
        if xr is None || yr is None {
            Err(ErrorKind::NonConvergence)
        } else {
            Ok(Seq::new(g.floating as nat, |i: int| (xr->Some_0[i], yr->Some_0[i])))
        }
    }
}

/// Builds the normal equations of `prob` and solves them once per axis,
/// merging the two rounded solution vectors into coordinates.
#[verifier::loop_isolation(false)]
pub fn solve_placement(prob: &Problem) -> (r: Result<Vec<Coordinate>, PlacerError>)
    requires
        prob@.wf(),
    ensures
        r is Ok <==> placement_result(prob@) is Ok,
        r is Ok ==> coords_view(r->Ok_0@) == placement_result(prob@)->Ok_0 && r->Ok_0@.len()
            == prob@.floating,
        r is Ok ==> forall|q: int|
            0 <= q < r->Ok_0@.len() ==> abs1((#[trigger] r->Ok_0@[q]).x as int) <= ROUND_BOUND
                && abs1(r->Ok_0@[q].y as int) <= ROUND_BOUND,
        r is Err ==> placement_result(prob@) is Err && r->Err_0.kind == placement_result(
            prob@,
        )->Err_0,
{
    let ghost g = prob@;
    let (a, xb, yb) = build_system(prob);
    proof {
        assert(a@.len() == g.floating);
        assert forall|i: int| 0 <= i < g.floating implies #[trigger] a@[i] =~= built_matrix(g)[i] by {
            assert(a@[i].len() == g.floating);
        }
        assert(a@ =~= built_matrix(g));
        assert(ints64(xb@) =~= built_rhs(g, true));
        assert(ints64(yb@) =~= built_rhs(g, false));
        assert forall|i: int, j: int|
            0 <= i < g.floating && 0 <= j < g.floating implies abs1(#[trigger] a@[i][j])
            <= ENTRY_BOUND by {
            lemma_entry_bound(g, i, j, g.edges.len() as int);
            assert(2 * g.edges.len() <= 2 * MAX_EDGES);
        }
        assert forall|i: int| 0 <= i < g.floating implies #[trigger] a@[i][i] >= 0 by {
            lemma_diag_nonneg(g, i, g.edges.len() as int);
        }
        assert forall|f: int| 0 <= f < g.floating implies abs1(#[trigger] xb@[f] as int)
            <= RHS_BOUND by {
            lemma_rhs_bound(g, f, true, g.edges.len() as int);
        }
        assert forall|f: int| 0 <= f < g.floating implies abs1(#[trigger] yb@[f] as int)
            <= RHS_BOUND by {
            lemma_rhs_bound(g, f, false, g.edges.len() as int);
        }
    }
    let x_results = match a.solve(prob.solve_diff, &xb) {
        Err(e) => {
            return Err(e);
        },
        Ok(v) => v,
    };
    let y_results = match a.solve(prob.solve_diff, &yb) {
        Err(e) => {
            return Err(e);
        },
        Ok(v) => v,
    };
    let n = prob.floating_cells;
    let mut solved_coordinates: Vec<Coordinate> = Vec::new();
    let mut index: usize = 0;
    while index < n
        invariant
            index <= n,
            solved_coordinates@.len() == index,
            forall|q: int|
                0 <= q < index ==> (#[trigger] solved_coordinates@[q]).x == x_results@[q]
                    && solved_coordinates@[q].y == y_results@[q],
        decreases n - index,
    {
        solved_coordinates.push(Coordinate { x: x_results[index], y: y_results[index] });
        index = index + 1;
    }
    proof {
        assert(coords_view(solved_coordinates@) =~= placement_result(g)->Ok_0);
        assert forall|q: int| 0 <= q < solved_coordinates@.len() implies abs1(
            (#[trigger] solved_coordinates@[q]).x as int,
        ) <= ROUND_BOUND && abs1(solved_coordinates@[q].y as int) <= ROUND_BOUND by {
            assert(x_results@[q] == solved_coordinates@[q].x);
            assert(abs1(x_results@[q] as int) <= ROUND_BOUND);
            assert(abs1(y_results@[q] as int) <= ROUND_BOUND);
        }
    }
    Ok(solved_coordinates)
}

/// Isolated-cell law: a floating cell with no incident edge gives the
/// coefficient matrix a zero diagonal entry, and the placement then fails
/// with `SingularSystem` instead of dividing by zero.
pub proof fn lemma_isolated_cell_is_singular(g: GraphModel, f: int)
    requires
        g.wf(),
        0 <= f < g.floating,
        degree(g, f) == 0,
    ensures
        placement_result(g) == Err::<Seq<(int, int)>, ErrorKind>(ErrorKind::SingularSystem),
{
    lemma_diagonal_dominance(g, f);
    assert(built_matrix(g)[f][f] == mat_entry(g, f, f));
    assert(built_matrix(g)[f][f] == 0);
    assert(has_zero_diag(built_matrix(g)));
}

/// Runs the whole pipeline on the raw problem description: parse, build,
/// solve both axes, and report the total Manhattan wirelength.
pub fn run(contents: &Vec<u8>) -> (r: Result<usize, PlacerError>)
    ensures
        spec_parse(contents@) is Err ==> r is Err && r->Err_0.kind == ErrorKind::MalformedProblem
            && r->Err_0.why@ == fault_why(spec_parse(contents@)->Err_0),
        spec_parse(contents@) is Ok ==> ({
            let g = spec_parse(contents@)->Ok_0;
            match placement_result(g) {
                Err(k) => r is Err && r->Err_0.kind == k,
                Ok(coords) => ({
                    let w = manhattan(g.edges, g.statics, coords);
                    &&& (w <= usize::MAX ==> r is Ok && r->Ok_0 as int == w)
                    &&& (w > usize::MAX ==> r is Err && r->Err_0.kind
                        == ErrorKind::MalformedProblem)
                }),
            }
        }),
{
    let prob = match parse(contents) {
        Err(e) => {
            return Err(e);
        },
        Ok(p) => p,
    };
    let floating_cells = match solve_placement(&prob) {
        Err(e) => {
            return Err(e);
        },
        Ok(c) => c,
    };
    proof {
        let g = prob@;
        assert(coords_in_range(g.statics, coords_view(floating_cells@)));
        assert(edges_in_range(g.edges, g.statics.len() + floating_cells@.len() as int));
    }
    let total = manhattan_total(&prob.edges, &prob.static_cells, &floating_cells);
    if (total as u128) > (usize::MAX as u128) {
        return Err(PlacerError {
            kind: ErrorKind::MalformedProblem,
            why: "Total wirelength exceeds the machine's integer range",
        });
    }
    Ok(total as usize)
}

} // verus!

//! Gauss-Seidel relaxation over fixed-point integers.
//!
//! Real values are represented as integers scaled by `SCALE`.  Each sweep
//! updates every row in increasing index order from the most recently
//! computed values (in-place relaxation), tracks the largest change, and the
//! iteration stops once that change falls below the scaled tolerance.  The
//! sweep count is capped so that a pathological system fails with a
//! `NonConvergence` error instead of looping forever, and every intermediate
//! value is kept within `VALUE_BOUND` by an explicit runtime guard, which
//! makes the `i128` arithmetic overflow-free.

use vstd::prelude::*;

use crate::error::ErrorKind;
use crate::error::PlacerError;
use crate::matrix::Matrix;
use crate::matrix::ENTRY_BOUND;
use crate::matrix::RHS_BOUND;
use crate::problem::abs1;
use crate::problem::MAX_DIM;

verus! {

/// The fixed-point scale: one unit of a solution value is `1 / SCALE`.
pub const SCALE: i64 = 1000000;

/// Half of `SCALE`, used to round to the nearest integer.
pub const HALF_SCALE: i64 = 500000;

/// Magnitude bound kept on every stored solution value (2^60).
pub const VALUE_BOUND: i128 = 1152921504606846976;

/// The sweep budget: a generous cap after which the solver reports
/// `NonConvergence`.
pub const SWEEP_CAP: usize = 10000;

/// Magnitude bound on every rounded output value:
/// `(VALUE_BOUND + HALF_SCALE) / SCALE`, rounded up.
pub const ROUND_BOUND: i64 = 1152921505107;

/// A sequence of `i128` values as mathematical integers.
pub open spec fn ints128(s: Seq<i128>) -> Seq<int> {
    s.map(|i: int, v: i128| v as int)
}

/// A sequence of `i64` values as mathematical integers.
pub open spec fn ints64(s: Seq<i64>) -> Seq<int> {
    s.map(|i: int, v: i64| v as int)
}

/// Division truncating toward zero, for a positive divisor: the semantics of
/// the executable `/` on the non-negative half, with the sign split off.
pub open spec fn tdiv(t: int, d: int) -> int {
    if t >= 0 {
        t / d
    } else {
        -((-t) / d)
    }
}

/// `sum over c in [0, k), c != skip` of `row[c] * x[c]`.
pub open spec fn sum_except(row: Seq<int>, x: Seq<int>, k: int, skip: int) -> int
    decreases k,
{
    if k <= 0 {
        0
    } else {
        sum_except(row, x, k - 1, skip) + (if k - 1 == skip {
            0int
        } else {
            row[k - 1] * x[k - 1]
        })
    }
}

/// The relaxed value of row `r`: the row residual divided by the diagonal,
/// over the scaled right-hand side.
pub open spec fn row_value(a: Seq<Seq<int>>, b: Seq<int>, x: Seq<int>, r: int) -> int {
    tdiv(b[r] * (SCALE as int) - sum_except(a[r], x, a.len() as int, r), a[r][r])
}

/// The solution vector after relaxing rows `0 .. k` in order, each from the
/// most recently updated values.
pub open spec fn sweep_to(a: Seq<Seq<int>>, b: Seq<int>, x: Seq<int>, k: int) -> Seq<int>
    decreases k,
{
    if k <= 0 {
        x
    } else {
        let y = sweep_to(a, b, x, k - 1);
        y.update(k - 1, row_value(a, b, y, k - 1))
    }
}

/// The largest absolute per-row change between `x` and `y` over rows
/// `0 .. k`.
pub open spec fn max_diff(x: Seq<int>, y: Seq<int>, k: int) -> int
    decreases k,
{
    if k <= 0 {
        0
    } else {
        let d = abs1(x[k - 1] - y[k - 1]);
        let m = max_diff(x, y, k - 1);
        if d > m {
            d
        } else {
            m
        }
    }
}

/// Every value of `x` has magnitude at most `bound`.
pub open spec fn all_bounded(x: Seq<int>, bound: int) -> bool {
    forall|i: int| 0 <= i < x.len() ==> abs1(#[trigger] x[i]) <= bound
}

/// The Gauss-Seidel iteration from state `x` with `fuel` sweeps left: `None`
/// when the budget runs out or a value leaves `VALUE_BOUND`, otherwise the
/// first swept state whose largest change is below `eps`.
pub open spec fn gauss_seidel(
    a: Seq<Seq<int>>,
    b: Seq<int>,
    eps: int,
    x: Seq<int>,
    fuel: nat,
) -> Option<Seq<int>>
    decreases fuel,
{
    if fuel == 0 {
        None
    } else {
        let y = sweep_to(a, b, x, a.len() as int);
        if !all_bounded(y, VALUE_BOUND as int) {
            None
        } else if max_diff(x, y, a.len() as int) < eps {
            Some(y)
        } else {
            gauss_seidel(a, b, eps, y, (fuel - 1) as nat)
        }
    }
}

/// A scaled value rounded to the nearest integer, ties away from zero.
pub open spec fn round_scaled(v: int) -> int {
    if v >= 0 {
        (v + HALF_SCALE) / (SCALE as int)
    } else {
        -((-v + HALF_SCALE) / (SCALE as int))
    }
}

/// The all-zero start vector.
pub open spec fn zero_vec(n: int) -> Seq<int> {
    Seq::new(n as nat, |i: int| 0int)
}

/// Some row of `a` has a zero diagonal entry.
pub open spec fn has_zero_diag(a: Seq<Seq<int>>) -> bool {
    exists|r: int| 0 <= r < a.len() && #[trigger] a[r][r] == 0
}

/// What the solver returns on a system without zero diagonals: the converged
/// scaled vector, rounded per entry, or `None` when relaxation fails.
pub open spec fn solve_result(a: Seq<Seq<int>>, b: Seq<int>, eps: int) -> Option<Seq<int>> {
    match gauss_seidel(a, b, eps, zero_vec(a.len() as int), SWEEP_CAP as nat) {
        Some(y) => Some(y.map(|i: int, v: int| round_scaled(v))),
        None => None,
    }
}

/// Magnitude bound of a product from magnitude bounds of its factors.
proof fn lemma_mul_bound(a: int, x: int, ca: int, cx: int)
    by (nonlinear_arith)
    requires
        -ca <= a <= ca,
        -cx <= x <= cx,
        0 <= ca,
        0 <= cx,
    ensures
        -(ca * cx) <= a * x <= ca * cx,
{
}

/// A sweep preserves the length and leaves rows at or above `k` untouched.
proof fn lemma_sweep_frame(a: Seq<Seq<int>>, b: Seq<int>, x: Seq<int>, k: int)
    requires
        k <= x.len(),
    ensures
        sweep_to(a, b, x, k).len() == x.len(),
        forall|j: int| k <= j < x.len() ==> #[trigger] sweep_to(a, b, x, k)[j] == x[j],
    decreases k,
{
    if k > 0 {
        lemma_sweep_frame(a, b, x, k - 1);
    }
}

/// Once a row has been relaxed, later rows of the same sweep do not change
/// it.
proof fn lemma_sweep_stable(a: Seq<Seq<int>>, b: Seq<int>, x: Seq<int>, j: int, k1: int, k2: int)
    requires
        0 <= j < k1 <= k2,
        k2 <= x.len(),
    ensures
        sweep_to(a, b, x, k2)[j] == sweep_to(a, b, x, k1)[j],
    decreases k2 - k1,
{
    if k2 > k1 {
        lemma_sweep_stable(a, b, x, j, k1, k2 - 1);
        lemma_sweep_frame(a, b, x, k2 - 1);
    }
}

/// `max_diff` only reads rows below `k`.
proof fn lemma_max_diff_congruent(x: Seq<int>, y1: Seq<int>, y2: Seq<int>, k: int)
    requires
        forall|i: int| 0 <= i < k ==> y1[i] == y2[i],
    ensures
        max_diff(x, y1, k) == max_diff(x, y2, k),
    decreases k,
{
    if k > 0 {
        lemma_max_diff_congruent(x, y1, y2, k - 1);
    }
}

impl Matrix {
    /// Solves `A * x = b` to the scaled tolerance `solve_diff` by capped
    /// Gauss-Seidel relaxation, returning the rounded integer solution.
    ///
    /// Fails with `SingularSystem` on a zero diagonal entry and with
    /// `NonConvergence` when the sweep budget or the value range runs out.
    #[verifier::loop_isolation(false)]
    pub fn solve(&self, solve_diff: i64, b: &Vec<i64>) -> (res: Result<Vec<i64>, PlacerError>)
        requires
            self.wf(),
            b@.len() == self.size,
            self.size <= MAX_DIM,
            1 <= solve_diff,
            forall|r: int, c: int|
                0 <= r < self.size && 0 <= c < self.size ==> abs1(#[trigger] self@[r][c])
                    <= ENTRY_BOUND,
            forall|r: int| 0 <= r < self.size ==> #[trigger] self@[r][r] >= 0,
            forall|r: int| 0 <= r < self.size ==> abs1(#[trigger] b@[r] as int) <= RHS_BOUND,
        ensures
            (res is Err && res->Err_0.kind == ErrorKind::SingularSystem) <==> has_zero_diag(
                self@,
            ),
            (res is Err && res->Err_0.kind == ErrorKind::NonConvergence) <==> (!has_zero_diag(
                self@,
            ) && solve_result(self@, ints64(b@), solve_diff as int) is None),
            res is Ok <==> (!has_zero_diag(self@) && solve_result(
                self@,
                ints64(b@),
                solve_diff as int,
            ) is Some),
            res is Ok ==> ints64(res->Ok_0@) == solve_result(
                self@,
                ints64(b@),
                solve_diff as int,
            )->Some_0,
            res is Ok ==> res->Ok_0@.len() == self.size,
            res is Ok ==> forall|i: int|
                0 <= i < self.size ==> abs1(#[trigger] res->Ok_0@[i] as int) <= ROUND_BOUND,
    {
        let ghost aa = self@;
        let ghost bb = ints64(b@);
        let ghost eps = solve_diff as int;
        let n = self.size;
        proof {
            assert(aa.len() == n);
            assert(forall|r: int|
                0 <= r < n ==> (#[trigger] aa[r]).len() == n && aa[r]
                    == self.values@[r]@.map(|j: int, v: i64| v as int));
        }

        let mut r: usize = 0;
        while r < n
            invariant
                r <= n,
                forall|k: int| 0 <= k < r ==> #[trigger] aa[k][k] != 0,
            decreases n - r,
        {
            proof {
                assert(aa[r as int][r as int] == self.values@[r as int]@[r as int] as int);
            }
            if self.values[r][r] == 0 {
                return Err(PlacerError {
                    kind: ErrorKind::SingularSystem,
                    why: "Zero diagonal entry: a floating cell has no incident edge",
                });
            }
            r = r + 1;
        }
        proof {
            assert(!has_zero_diag(aa));
            assert(forall|k: int| 0 <= k < n ==> #[trigger] aa[k][k] >= 1);
        }

        let mut sol: Vec<i128> = Vec::new();
        let mut i: usize = 0;
        while i < n
            invariant
                i <= n,
                sol@.len() == i,
                forall|k: int| 0 <= k < i ==> #[trigger] sol@[k] == 0i128,
            decreases n - i,
        {
            sol.push(0);
            i = i + 1;
        }
        proof {
            assert(ints128(sol@) =~= zero_vec(n as int));
        }

        let mut sweeps: usize = 0;
        loop
            invariant
                sweeps <= SWEEP_CAP,
                sol@.len() == n,
                all_bounded(ints128(sol@), VALUE_BOUND as int),
                gauss_seidel(aa, bb, eps, zero_vec(n as int), SWEEP_CAP as nat) == gauss_seidel(
                    aa,
                    bb,
                    eps,
                    ints128(sol@),
                    (SWEEP_CAP - sweeps) as nat,
                ),
            decreases SWEEP_CAP - sweeps,
        {
            if sweeps == SWEEP_CAP {
                return Err(PlacerError {
                    kind: ErrorKind::NonConvergence,
                    why: "Relaxation did not converge",
                });
            }
            let ghost x0 = ints128(sol@);
            let ghost fuel = (SWEEP_CAP - sweeps) as nat;

            let mut iter_diff: i128 = 0;
            let mut row: usize = 0;
            while row < n
                invariant
                    row <= n,
                    sol@.len() == n,
                    ints128(sol@) == sweep_to(aa, bb, x0, row as int),
                    all_bounded(ints128(sol@), VALUE_BOUND as int),
                    iter_diff == max_diff(x0, ints128(sol@), row as int),
                    0 <= iter_diff,
                decreases n - row,
            {
                proof {
                    lemma_sweep_frame(aa, bb, x0, row as int);
                }
                let mut acc: i128 = 0;
                let mut c: usize = 0;
                while c < n
                    invariant
                        c <= n,
                        acc as int == sum_except(aa[row as int], ints128(sol@), c as int, row as int),
                        -(c as int) * 2417851639229258349412352 <= acc as int <= (c as int)
                            * 2417851639229258349412352,
                    decreases n - c,
                {
                    if c != row {
                        proof {
                            assert(aa[row as int][c as int] == self.values@[row as int]@[c
                                as int] as int);
                            assert(ints128(sol@)[c as int] == sol@[c as int] as int);
                            assert(abs1(aa[row as int][c as int]) <= ENTRY_BOUND);
                            assert(abs1(ints128(sol@)[c as int]) <= VALUE_BOUND as int);
                            lemma_mul_bound(
                                aa[row as int][c as int],
                                ints128(sol@)[c as int],
                                ENTRY_BOUND as int,
                                VALUE_BOUND as int,
                            );
                            assert(ENTRY_BOUND as int * VALUE_BOUND as int
                                == 2417851639229258349412352);
                        }
                        let av = self.values[row][c];
                        let xv = sol[c];
                        acc = acc + (av as i128) * xv;
                    }
                    c = c + 1;
                }
                proof {
                    assert(acc as int == sum_except(
                        aa[row as int],
                        ints128(sol@),
                        n as int,
                        row as int,
                    ));
                    assert(abs1(bb[row as int]) <= RHS_BOUND);
                    assert(aa[row as int][row as int] >= 1);
                    assert(aa[row as int][row as int] == self.values@[row as int]@[row
                        as int] as int);
                    assert(bb[row as int] == b@[row as int] as int);
                }
                let bv = b[row];
                let t: i128 = (bv as i128) * (SCALE as i128) - acc;
                let d = self.values[row][row];
                let new_val: i128 = if t >= 0 {
                    t / (d as i128)
                } else {
                    -((-t) / (d as i128))
                };
                proof {
                    assert(t as int == bb[row as int] * (SCALE as int) - sum_except(
                        aa[row as int],
                        ints128(sol@),
                        aa.len() as int,
                        row as int,
                    ));
                    assert(new_val as int == row_value(aa, bb, ints128(sol@), row as int));
                }
                let old_val = sol[row];
                proof {
                    assert(ints128(sol@)[row as int] == sol@[row as int] as int);
                    assert(sweep_to(aa, bb, x0, row as int)[row as int] == x0[row as int]);
                }
                if new_val > VALUE_BOUND || new_val < -VALUE_BOUND {
                    proof {
                        let y_full = sweep_to(aa, bb, x0, n as int);
                        let y_next = sweep_to(aa, bb, x0, row as int + 1);
                        assert(y_next[row as int] == new_val as int);
                        lemma_sweep_stable(aa, bb, x0, row as int, row as int + 1, n as int);
                        assert(y_full[row as int] == new_val as int);
                        lemma_sweep_frame(aa, bb, x0, n as int);
                        assert(!all_bounded(y_full, VALUE_BOUND as int));
                        assert(gauss_seidel(aa, bb, eps, x0, fuel) is None);
                    }
                    return Err(PlacerError {
                        kind: ErrorKind::NonConvergence,
                        why: "Relaxation did not converge",
                    });
                }
                let diff: i128 = if old_val >= new_val {
                    old_val - new_val
                } else {
                    new_val - old_val
                };
                if diff > iter_diff {
                    iter_diff = diff;
                }
                let ghost prev = ints128(sol@);
                sol.set(row, new_val);
                proof {
                    assert(ints128(sol@) =~= prev.update(row as int, new_val as int));
                    assert(ints128(sol@) == sweep_to(aa, bb, x0, row as int + 1));
                    lemma_max_diff_congruent(x0, prev, ints128(sol@), row as int);
                    assert(abs1(x0[row as int] - ints128(sol@)[row as int]) == diff as int);
                    assert(iter_diff == max_diff(x0, ints128(sol@), row as int + 1));
                }
                row = row + 1;
            }
            proof {
                assert(ints128(sol@) == sweep_to(aa, bb, x0, n as int));
                assert(all_bounded(sweep_to(aa, bb, x0, n as int), VALUE_BOUND as int));
                assert(iter_diff == max_diff(x0, sweep_to(aa, bb, x0, n as int), n as int));
            }
            if iter_diff < (solve_diff as i128) {
                proof {
                    assert(gauss_seidel(aa, bb, eps, x0, fuel) == Some(ints128(sol@)));
                }
                let mut out: Vec<i64> = Vec::new();
                let mut k: usize = 0;
                while k < n
                    invariant
                        k <= n,
                        out@.len() == k,
                        forall|j: int|
                            0 <= j < k ==> #[trigger] out@[j] as int == round_scaled(
                                ints128(sol@)[j],
                            ),
                        forall|j: int|
                            0 <= j < k ==> abs1(#[trigger] out@[j] as int) <= ROUND_BOUND,
                    decreases n - k,
                {
                    let v = sol[k];
                    proof {
                        assert(ints128(sol@)[k as int] == sol@[k as int] as int);
                        assert(abs1(ints128(sol@)[k as int]) <= VALUE_BOUND as int);
                    }
                    let rv: i128 = if v >= 0 {
                        (v + HALF_SCALE as i128) / (SCALE as i128)
                    } else {
                        -((-v + HALF_SCALE as i128) / (SCALE as i128))
                    };
                    proof {
                        assert(rv as int == round_scaled(ints128(sol@)[k as int]));
                        assert(abs1(rv as int) <= ROUND_BOUND);
                    }
                    out.push(rv as i64);
                    k = k + 1;
                }
                proof {
                    assert(ints64(out@) =~= sweep_to(aa, bb, x0, n as int).map(
                        |i: int, v: int| round_scaled(v),
                    ));
                    assert(solve_result(aa, bb, eps) == Some(ints64(out@)));
                }
                return Ok(out);
            }
            sweeps = sweeps + 1;
        }
    }
}

} // verus!

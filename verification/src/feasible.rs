//! Points of the constraint system of a tableau: what pivots do to them
//! (nothing), how a branch divides them between its two children, and what
//! the objective is on them.

use vstd::prelude::*;
use crate::arith::lemma_cancel;
use crate::arith::lemma_combination_scaled;
use crate::arith::lemma_combination_step;
use crate::arith::magnitude;
use crate::arith::signum;
use crate::branch::bound_coefficient;
use crate::branch::bound_rhs;
use crate::branch::child_tableau;
use crate::branch::first_one_row;
use crate::branch::is_first_one_row;
use crate::pivot::lemma_pivot_exact;
use crate::pivot::pivot_fits;
use crate::pivot::SolveError;
use crate::select::dual_entering;
use crate::select::dual_leaving;
use crate::select::primal_entering;
use crate::select::primal_leaving;
use crate::simplex::dual_feasible;
use crate::simplex::dual_run;
use crate::simplex::dual_solve;
use crate::simplex::lemma_dual_leaving_row;
use crate::simplex::lemma_dual_pivot_defined;
use crate::simplex::lemma_dual_run_infeasible;
use crate::simplex::lemma_dual_run_wf;
use crate::simplex::lemma_primal_pivot_defined;
use crate::simplex::primal_feasible;
use crate::simplex::primal_run;
use crate::pivot::lemma_pivot_model_entries;
use crate::pivot::pivot_defined;
use crate::pivot::pivot_gcd;
use crate::pivot::pivot_model;
use crate::pivot::raw_entry;
use crate::tableau::TableauModel;

verus! {

/// The sum of `u[k] * x[k]` over the first `n` positions.
pub open spec fn dot(u: Seq<int>, x: Seq<int>, n: nat) -> int
    decreases n,
{
    if n == 0 {
        0
    } else {
        dot(u, x, (n - 1) as nat) + u[n - 1] * x[n - 1]
    }
}

/// The point with the coordinates `x[j] / q` satisfies every constraint row
/// of the tableau: `sum_j (a[i][j] / d) * (x[j] / q) == b[i] / d`.
pub open spec fn satisfies(m: TableauModel, x: Seq<int>, q: int) -> bool {
    &&& x.len() == m.cols()
    &&& q > 0
    &&& forall|i: int| 0 <= i < m.rows() ==> dot(#[trigger] m.a[i], x, m.cols()) == m.b[i] * q
}

/// The point with the coordinates `x[j] / q` lies in the feasible region of
/// the tableau: it satisfies every constraint row and no coordinate is
/// negative.
pub open spec fn feasible(m: TableauModel, x: Seq<int>, q: int) -> bool {
    &&& satisfies(m, x, q)
    &&& forall|j: int| 0 <= j < x.len() ==> #[trigger] x[j] >= 0
}

/// The objective at the point `x / q`, as the numerator of a fraction over
/// `d * q`: the objective constant less the objective row applied to the
/// point.
pub open spec fn objective_at(m: TableauModel, x: Seq<int>, q: int) -> int {
    m.z * q - dot(m.c, x, m.cols())
}

/// Where every element of `u`, multiplied by `gamma`, is the combination
/// `alpha * v[k] + beta * w[k]`, the same holds of the sums against `x`.
pub proof fn lemma_dot_combination(
    u: Seq<int>,
    v: Seq<int>,
    w: Seq<int>,
    x: Seq<int>,
    alpha: int,
    beta: int,
    gamma: int,
    n: nat,
)
    requires
        forall|k: int| 0 <= k < n ==> gamma * #[trigger] u[k] == alpha * v[k] + beta * w[k],
    ensures
        gamma * dot(u, x, n) == alpha * dot(v, x, n) + beta * dot(w, x, n),
    decreases n,
{
    if n == 0 {
        assert(gamma * 0 == alpha * 0 + beta * 0) by (nonlinear_arith);
    } else {
        lemma_dot_combination(u, v, w, x, alpha, beta, gamma, (n - 1) as nat);
        let du = dot(u, x, (n - 1) as nat);
        let dv = dot(v, x, (n - 1) as nat);
        let dw = dot(w, x, (n - 1) as nat);
        let k = n - 1;
        assert(gamma * u[k] == alpha * v[k] + beta * w[k]);
        lemma_combination_step(gamma, alpha, beta, du, dv, dw, u[k], v[k], w[k], x[k]);
    }
}

/// By how much the old row `i` enters the new row `i` of a pivot.
pub open spec fn own_weight(m: TableauModel, e: int, r: int, i: int) -> int {
    if i == r {
        signum(m.a[r][e]) * m.d
    } else {
        signum(m.a[r][e]) * m.a[r][e]
    }
}

/// By how much the old pivot row enters the new row `i` of a pivot.
pub open spec fn pivot_weight(m: TableauModel, e: int, r: int, i: int) -> int {
    if i == r {
        0
    } else {
        -(signum(m.a[r][e]) * m.entry(i, e))
    }
}

/// The coefficients of row `i` of the extended tableau (the objective row for
/// `i == rows()`).
pub open spec fn row_of(m: TableauModel, i: int) -> Seq<int> {
    if i < m.rows() {
        m.a[i]
    } else {
        m.c
    }
}

/// Each row of the pivoted tableau, multiplied by the cancelled divisor, is a
/// combination of the old row and the old pivot row, coefficients and
/// right-hand side alike.
pub proof fn lemma_pivot_row(m: TableauModel, e: int, r: int, i: int, x: Seq<int>)
    requires
        m.wf(),
        pivot_defined(m, e, r),
        0 <= i <= m.rows(),
    ensures
        pivot_gcd(m, e, r) > 0,
        pivot_gcd(m, e, r) * dot(row_of(pivot_model(m, e, r), i), x, m.cols()) == own_weight(m, e, r, i)
            * dot(row_of(m, i), x, m.cols()) + pivot_weight(m, e, r, i) * dot(m.a[r], x, m.cols()),
        pivot_gcd(m, e, r) * pivot_model(m, e, r).entry(i, m.cols() as int) == own_weight(m, e, r, i)
            * m.entry(i, m.cols() as int) + pivot_weight(m, e, r, i) * m.b[r],
{
    let n = pivot_model(m, e, r);
    let g = pivot_gcd(m, e, r) as int;
    let p = m.a[r][e];
    let s = signum(p);
    let own = own_weight(m, e, r, i);
    let piv = pivot_weight(m, e, r, i);
    lemma_pivot_model_entries(m, e, r);
    lemma_pivot_exact(m, e, r);
    assert forall|k: int| 0 <= k <= m.cols() implies g * #[trigger] n.entry(i, k) == own * m.entry(i, k) + piv
        * m.entry(r, k) by {
        assert(n.entry(i, k) * g == raw_entry(m, e, r, i, k));
        assert(g * n.entry(i, k) == n.entry(i, k) * g) by (nonlinear_arith);
        if i == r {
            assert(s * (m.entry(r, k) * m.d) == (s * m.d) * m.entry(r, k) + 0 * m.entry(r, k))
                by (nonlinear_arith);
        } else {
            assert(s * (m.entry(i, k) * p - m.entry(i, e) * m.entry(r, k)) == (s * p) * m.entry(i, k) + (-(s
                * m.entry(i, e))) * m.entry(r, k)) by (nonlinear_arith);
        }
    }
    assert forall|k: int| 0 <= k < m.cols() implies g * #[trigger] row_of(n, i)[k] == own * row_of(m, i)[k]
        + piv * m.a[r][k] by {
        assert(g * n.entry(i, k) == own * m.entry(i, k) + piv * m.entry(r, k));
    }
    lemma_dot_combination(row_of(n, i), row_of(m, i), m.a[r], x, own, piv, g, m.cols());
    assert(g * n.entry(i, m.cols() as int) == own * m.entry(i, m.cols() as int) + piv * m.entry(
        r,
        m.cols() as int,
    ));
}

/// A pivot leaves the solution set of the constraint system as it was: a
/// point satisfies every row of the pivoted tableau exactly when it satisfies
/// every row of the tableau before the pivot. The feasible region, which asks
/// for non-negative coordinates besides, is therefore unchanged too.
pub proof fn lemma_pivot_keeps_solutions(m: TableauModel, e: int, r: int, x: Seq<int>, q: int)
    requires
        m.wf(),
        pivot_defined(m, e, r),
    ensures
        satisfies(pivot_model(m, e, r), x, q) <==> satisfies(m, x, q),
        feasible(pivot_model(m, e, r), x, q) <==> feasible(m, x, q),
{
    let n = pivot_model(m, e, r);
    let g = pivot_gcd(m, e, r) as int;
    let p = m.a[r][e];
    let s = signum(p);
    let cols = m.cols();
    lemma_pivot_model_entries(m, e, r);
    lemma_pivot_exact(m, e, r);
    if x.len() == m.cols() && q > 0 {
        let old_r = dot(m.a[r], x, cols);
        if satisfies(m, x, q) {
            assert forall|i: int| 0 <= i < n.rows() implies dot(#[trigger] n.a[i], x, n.cols()) == n.b[i]
                * q by {
                lemma_pivot_row(m, e, r, i, x);
                let own = own_weight(m, e, r, i);
                let piv = pivot_weight(m, e, r, i);
                let new_i = dot(n.a[i], x, cols);
                let old_i = dot(m.a[i], x, cols);
                assert(old_i == m.b[i] * q);
                assert(old_r == m.b[r] * q);
                lemma_combination_scaled(own, piv, m.b[i], m.b[r], q);
                assert((g * n.b[i]) * q == g * (n.b[i] * q)) by (nonlinear_arith);
                lemma_cancel(g, new_i, n.b[i] * q);
            }
        }
        if satisfies(n, x, q) {
            lemma_pivot_row(m, e, r, r, x);
            let new_r = dot(n.a[r], x, cols);
            assert(new_r == n.b[r] * q);
            assert(s * m.d != 0) by (nonlinear_arith)
                requires
                    s == 1 || s == -1,
                    m.d > 0,
            ;
            assert(0 * old_r == 0 && 0 * m.b[r] == 0);
            assert((g * n.b[r]) * q == g * (n.b[r] * q)) by (nonlinear_arith);
            assert(((s * m.d) * m.b[r]) * q == (s * m.d) * (m.b[r] * q)) by (nonlinear_arith);
            lemma_cancel(s * m.d, old_r, m.b[r] * q);
            assert forall|i: int| 0 <= i < m.rows() implies dot(#[trigger] m.a[i], x, m.cols()) == m.b[i]
                * q by {
                if i != r {
                    lemma_pivot_row(m, e, r, i, x);
                    let piv = pivot_weight(m, e, r, i);
                    let new_i = dot(n.a[i], x, cols);
                    let old_i = dot(m.a[i], x, cols);
                    assert(new_i == n.b[i] * q);
                    assert(s * p != 0) by (nonlinear_arith)
                        requires
                            s == 1 || s == -1,
                            p != 0,
                    ;
                    lemma_combination_scaled(s * p, piv, m.b[i], m.b[r], q);
                    assert((g * n.b[i]) * q == g * (n.b[i] * q)) by (nonlinear_arith);
                    lemma_cancel(s * p, old_i, m.b[i] * q);
                }
            }
        }
    }
}

/// A pivot leaves the objective as it was at every point that satisfies the
/// constraint system: the two values, fractions over `d * q` before and after
/// the pivot, are equal.
pub proof fn lemma_pivot_keeps_objective(m: TableauModel, e: int, r: int, x: Seq<int>, q: int)
    requires
        m.wf(),
        pivot_defined(m, e, r),
        satisfies(m, x, q),
    ensures
        objective_at(pivot_model(m, e, r), x, q) * m.d == objective_at(m, x, q) * pivot_model(m, e, r).d,
{
    let n = pivot_model(m, e, r);
    let g = pivot_gcd(m, e, r) as int;
    let p = m.a[r][e];
    let s = signum(p);
    let cols = m.cols();
    let rows = m.rows() as int;
    lemma_pivot_model_entries(m, e, r);
    lemma_pivot_exact(m, e, r);
    lemma_pivot_row(m, e, r, rows, x);
    let piv = pivot_weight(m, e, r, rows);
    let old_r = dot(m.a[r], x, cols);
    let new_c = dot(n.c, x, cols);
    let old_c = dot(m.c, x, cols);
    assert(old_r == m.b[r] * q);
    assert(n.d * g == m.d * magnitude(p));
    assert(s * p == magnitude(p)) by (nonlinear_arith)
        requires
            s == signum(p),
            p != 0,
    ;
    lemma_combination_scaled(s * p, piv, m.z, m.b[r], q);
    assert((g * n.z) * q == g * (n.z * q)) by (nonlinear_arith);
    assert(g * (n.z * q - new_c) == g * (n.z * q) - g * new_c) by (nonlinear_arith);
    assert((s * p) * (m.z * q - old_c) == (s * p) * (m.z * q) - (s * p) * old_c) by (nonlinear_arith);
    let gain_new = n.z * q - new_c;
    let gain_old = m.z * q - old_c;
    assert(g * gain_new == (s * p) * gain_old);
    assert(g * (gain_new * m.d) == (g * gain_new) * m.d) by (nonlinear_arith);
    assert(((s * p) * gain_old) * m.d == gain_old * (m.d * (s * p))) by (nonlinear_arith);
    assert(gain_old * (n.d * g) == g * (gain_old * n.d)) by (nonlinear_arith);
    lemma_cancel(g, gain_new * m.d, gain_old * n.d);
}

/// The dual method leaves the solution set of the constraint system, and
/// with it the feasible region, as it was.
pub proof fn lemma_dual_run_keeps_solutions(m: TableauModel, fuel: nat, x: Seq<int>, q: int)
    requires
        m.wf(),
    ensures
        satisfies(dual_run(m, fuel).0, x, q) <==> satisfies(m, x, q),
        feasible(dual_run(m, fuel).0, x, q) <==> feasible(m, x, q),
    decreases fuel,
{
    let r = dual_leaving(m.b);
    let e = dual_entering(m.c, m.a[r]);
    if !primal_feasible(m) && e >= 0 && fuel > 0 && pivot_fits(m, e, r) {
        lemma_dual_pivot_defined(m);
        lemma_pivot_exact(m, e, r);
        lemma_pivot_keeps_solutions(m, e, r, x, q);
        lemma_dual_run_keeps_solutions(pivot_model(m, e, r), (fuel - 1) as nat, x, q);
    }
}

/// The primal method leaves the solution set of the constraint system, and
/// with it the feasible region, as it was.
pub proof fn lemma_primal_run_keeps_solutions(m: TableauModel, fuel: nat, x: Seq<int>, q: int)
    requires
        m.wf(),
    ensures
        satisfies(primal_run(m, fuel).0, x, q) <==> satisfies(m, x, q),
        feasible(primal_run(m, fuel).0, x, q) <==> feasible(m, x, q),
    decreases fuel,
{
    let e = primal_entering(m.c);
    let r = primal_leaving(m.b, m.column(e));
    if !dual_feasible(m) && r >= 0 && fuel > 0 && pivot_fits(m, e, r) {
        lemma_primal_pivot_defined(m);
        lemma_pivot_exact(m, e, r);
        lemma_pivot_keeps_solutions(m, e, r, x, q);
        lemma_primal_run_keeps_solutions(pivot_model(m, e, r), (fuel - 1) as nat, x, q);
    }
}

/// The dual method followed by the primal method leaves the feasible region
/// as it was: whatever tableau the pivots reach, it has the points of the
/// tableau that they started from, and no others.
pub proof fn lemma_dual_solve_keeps_solutions(m: TableauModel, fuel: nat, x: Seq<int>, q: int)
    requires
        m.wf(),
    ensures
        satisfies(dual_solve(m, fuel).0, x, q) <==> satisfies(m, x, q),
        feasible(dual_solve(m, fuel).0, x, q) <==> feasible(m, x, q),
{
    lemma_dual_run_keeps_solutions(m, fuel, x, q);
    lemma_dual_run_wf(m, fuel);
    lemma_primal_run_keeps_solutions(dual_run(m, fuel).0, fuel, x, q);
}

/// Against a point without negative coordinates, a row without negative
/// coefficients sums to nothing negative.
pub proof fn lemma_dot_nonnegative(u: Seq<int>, x: Seq<int>, n: nat)
    requires
        forall|j: int| 0 <= j < n ==> #[trigger] u[j] >= 0,
        forall|j: int| 0 <= j < n ==> #[trigger] x[j] >= 0,
    ensures
        dot(u, x, n) >= 0,
    decreases n,
{
    if n > 0 {
        lemma_dot_nonnegative(u, x, (n - 1) as nat);
        let j = n - 1;
        assert(u[j] >= 0 && x[j] >= 0);
        assert(u[j] * x[j] >= 0) by (nonlinear_arith)
            requires
                u[j] >= 0,
                x[j] >= 0,
        ;
    }
}

/// On a tableau whose objective row has no negative coefficient, the
/// objective constant bounds the objective over the feasible region: no
/// feasible point has a larger objective.
pub proof fn lemma_optimal_bounds_objective(m: TableauModel, x: Seq<int>, q: int)
    requires
        dual_feasible(m),
        feasible(m, x, q),
    ensures
        objective_at(m, x, q) <= m.z * q,
{
    lemma_dot_nonnegative(m.c, x, m.cols());
}

/// A tableau with a negative right-hand side in a row without negative
/// coefficients has an empty feasible region.
pub proof fn lemma_closed_row_has_no_point(m: TableauModel, r: int, x: Seq<int>, q: int)
    requires
        m.wf(),
        0 <= r < m.rows(),
        m.b[r] < 0,
        forall|j: int| 0 <= j < m.cols() ==> #[trigger] m.a[r][j] >= 0,
    ensures
        !feasible(m, x, q),
{
    if feasible(m, x, q) {
        lemma_dot_nonnegative(m.a[r], x, m.cols());
        assert(dot(m.a[r], x, m.cols()) == m.b[r] * q);
        assert(m.b[r] * q < 0) by (nonlinear_arith)
            requires
                m.b[r] < 0,
                q > 0,
        ;
    }
}

/// Where the dual method ends `Infeasible` on a leaving row without negative
/// coefficients, the tableau that it started from has an empty feasible
/// region. Nothing of the kind holds of a run that gives up for the pivot
/// ceiling or the machine representation, nor of a leaving row whose negative
/// coefficients the ratio test passed over.
pub proof fn lemma_infeasible_run_has_no_point(m: TableauModel, fuel: nat, x: Seq<int>, q: int)
    requires
        m.wf(),
        dual_run(m, fuel).1 == Err::<(), SolveError>(SolveError::Infeasible),
        forall|j: int|
            0 <= j < m.cols() ==> #[trigger] dual_run(m, fuel).0.a[dual_leaving(dual_run(m, fuel).0.b)][j]
                >= 0,
    ensures
        !feasible(m, x, q),
{
    let n = dual_run(m, fuel).0;
    lemma_dual_run_wf(m, fuel);
    lemma_dual_run_infeasible(m, fuel);
    lemma_dual_leaving_row(n);
    lemma_dual_run_shape(m, fuel);
    lemma_closed_row_has_no_point(n, dual_leaving(n.b), x, q);
    lemma_dual_run_keeps_solutions(m, fuel, x, q);
}

/// The dual method keeps the number of rows and of columns.
pub proof fn lemma_dual_run_shape(m: TableauModel, fuel: nat)
    requires
        m.wf(),
    ensures
        dual_run(m, fuel).0.rows() == m.rows(),
        dual_run(m, fuel).0.cols() == m.cols(),
    decreases fuel,
{
    let r = dual_leaving(m.b);
    let e = dual_entering(m.c, m.a[r]);
    if !primal_feasible(m) && e >= 0 && fuel > 0 && pivot_fits(m, e, r) {
        lemma_dual_pivot_defined(m);
        lemma_pivot_exact(m, e, r);
        lemma_pivot_model_entries(m, e, r);
        lemma_dual_run_shape(pivot_model(m, e, r), (fuel - 1) as nat);
    }
}

/// Sums over the first `n` positions depend on the first `n` elements only.
pub proof fn lemma_dot_prefix(u: Seq<int>, x: Seq<int>, v: Seq<int>, y: Seq<int>, n: nat)
    requires
        forall|j: int| 0 <= j < n ==> #[trigger] u[j] == v[j],
        forall|j: int| 0 <= j < n ==> #[trigger] x[j] == y[j],
    ensures
        dot(u, x, n) == dot(v, y, n),
    decreases n,
{
    if n > 0 {
        lemma_dot_prefix(u, x, v, y, (n - 1) as nat);
        assert(u[n - 1] == v[n - 1]);
        assert(x[n - 1] == y[n - 1]);
    }
}

/// The sum against a sequence that holds `d` at position `k` and zero at
/// every other of the first `n` positions picks `d * x[k]`.
pub proof fn lemma_dot_unit(u: Seq<int>, x: Seq<int>, d: int, k: int, n: nat)
    requires
        0 <= k,
        forall|j: int| 0 <= j < n ==> #[trigger] u[j] == (if j == k { d } else { 0 }),
    ensures
        dot(u, x, n) == (if k < n { d * x[k] } else { 0 }),
    decreases n,
{
    if n > 0 {
        lemma_dot_unit(u, x, d, k, (n - 1) as nat);
        let j = n - 1;
        assert(u[j] == (if j == k { d } else { 0 }));
        if j != k {
            assert(u[j] * x[j] == 0) by (nonlinear_arith)
                requires
                    u[j] == 0,
            ;
        }
    }
}

/// The unit sequence of column `k`: `d` at position `k`, zero elsewhere.
pub open spec fn unit_row(d: int, k: int, n: nat) -> Seq<int> {
    Seq::new(n, |j: int| if j == k { d } else { 0 })
}

/// The floor of the value of the branched variable: the right-hand side of
/// its row less the fractional part, as a whole number.
pub open spec fn branch_floor(m: TableauModel, k: int) -> int {
    m.b[first_one_row(m, k)] / m.d
}

/// A child keeps every row of its parent: against a point with one more
/// coordinate, a row of the parent sums to what it summed to against the
/// point without that coordinate.
pub proof fn lemma_child_keeps_rows(m: TableauModel, k: int, f: int, upper: bool, i: int, x: Seq<int>)
    requires
        m.wf(),
        0 <= i < m.rows(),
        x.len() == m.cols() + 1,
    ensures
        child_tableau(m, k, f, upper).a[i].len() == m.cols() + 1,
        child_tableau(m, k, f, upper).b[i] == m.b[i],
        dot(child_tableau(m, k, f, upper).a[i], x, m.cols() + 1) == dot(
            m.a[i],
            x.take(m.cols() as int),
            m.cols(),
        ),
{
    let n = m.cols();
    let row = child_tableau(m, k, f, upper).a[i];
    assert(row[n as int] == 0);
    assert(row[n as int] * x[n as int] == 0) by (nonlinear_arith)
        requires
            row[n as int] == 0,
    ;
    assert(dot(row, x, n + 1) == dot(row, x, n) + row[n as int] * x[n as int]);
    lemma_dot_prefix(row, x, m.a[i], x.take(n as int), n);
}

/// The row that a branch adds, summed against a point: the branched
/// variable and the new variable, each times the denominator, less the row
/// that holds the branched variable (for the bound `variable <= floor`), or
/// that row less the branched variable plus the new variable (for the bound
/// `variable >= ceil`).
pub proof fn lemma_child_bound_row(m: TableauModel, k: int, f: int, upper: bool, x: Seq<int>)
    requires
        m.wf(),
        0 <= k < m.cols(),
        first_one_row(m, k) >= 0,
        x.len() == m.cols() + 1,
    ensures
        child_tableau(m, k, f, upper).b[m.rows() as int] == bound_rhs(m, f, upper),
        dot(child_tableau(m, k, f, upper).a[m.rows() as int], x, m.cols() + 1) == (if upper {
            m.d * x[k] + m.d * x[m.cols() as int] - dot(
                m.a[first_one_row(m, k)],
                x.take(m.cols() as int),
                m.cols(),
            )
        } else {
            dot(m.a[first_one_row(m, k)], x.take(m.cols() as int), m.cols()) - m.d * x[k] + m.d
                * x[m.cols() as int]
        }),
{
    let n = m.cols();
    let r = first_one_row(m, k);
    assert(is_first_one_row(m, k, r));
    let row = child_tableau(m, k, f, upper).a[m.rows() as int];
    let unit = unit_row(m.d, k, n);
    let held = m.a[r];
    let last = n as int;
    assert(row[last] == m.d);
    assert(dot(row, x, n + 1) == dot(row, x, n) + row[last] * x[last]);
    lemma_dot_unit(unit, x, m.d, k, n);
    lemma_dot_prefix(held, x, held, x.take(last), n);
    if upper {
        assert forall|j: int| 0 <= j < n implies 1 * #[trigger] row[j] == 1 * unit[j] + (-1) * held[j] by {
            assert(row[j] == bound_coefficient(m, k, r, upper, j));
        }
        lemma_dot_combination(row, unit, held, x, 1, -1, 1, n);
    } else {
        assert forall|j: int| 0 <= j < n implies 1 * #[trigger] row[j] == (-1) * unit[j] + 1 * held[j] by {
            assert(row[j] == bound_coefficient(m, k, r, upper, j));
        }
        lemma_dot_combination(row, unit, held, x, -1, 1, 1, n);
    }
}

/// A child keeps the objective of its parent: at a point with one more
/// coordinate the objective is what the parent's was at the point without
/// that coordinate.
pub proof fn lemma_child_keeps_objective(m: TableauModel, k: int, f: int, upper: bool, x: Seq<int>, q: int)
    requires
        m.wf(),
        x.len() == m.cols() + 1,
    ensures
        child_tableau(m, k, f, upper).d == m.d,
        objective_at(child_tableau(m, k, f, upper), x, q) == objective_at(m, x.take(m.cols() as int), q),
{
    let n = m.cols();
    let child = child_tableau(m, k, f, upper);
    let row = child.c;
    assert(row[n as int] == 0);
    assert(row[n as int] * x[n as int] == 0) by (nonlinear_arith)
        requires
            row[n as int] == 0,
    ;
    assert(dot(row, x, n + 1) == dot(row, x, n) + row[n as int] * x[n as int]);
    lemma_dot_prefix(row, x, m.c, x.take(n as int), n);
}

/// The constraint system of a child. A point with one more coordinate
/// satisfies the child for the bound `variable <= floor` exactly when, without
/// that coordinate, it satisfies the parent, and the branched variable plus
/// the new slack is the floor; it satisfies the child for the bound
/// `variable >= ceil` exactly when it satisfies the parent and the branched
/// variable less the new surplus is the floor plus one.
pub proof fn lemma_child_solutions(m: TableauModel, k: int, upper: bool, x: Seq<int>, q: int)
    requires
        m.wf(),
        0 <= k < m.cols(),
        first_one_row(m, k) >= 0,
        x.len() == m.cols() + 1,
        q > 0,
    ensures
        satisfies(child_tableau(m, k, m.b[first_one_row(m, k)] % m.d, upper), x, q) <==> (satisfies(
            m,
            x.take(m.cols() as int),
            q,
        ) && (if upper {
            x[k] + x[m.cols() as int] == branch_floor(m, k) * q
        } else {
            x[k] - x[m.cols() as int] == (branch_floor(m, k) + 1) * q
        })),
{
    let n = m.cols();
    let rows = m.rows() as int;
    let r = first_one_row(m, k);
    assert(is_first_one_row(m, k, r));
    let f = m.b[r] % m.d;
    let floor = m.b[r] / m.d;
    let child = child_tableau(m, k, f, upper);
    let y = x.take(n as int);
    let last = n as int;
    let held = dot(m.a[r], y, n);
    vstd::arithmetic::div_mod::lemma_fundamental_div_mod(m.b[r], m.d);
    lemma_child_bound_row(m, k, f, upper, x);
    assert forall|i: int| 0 <= i < rows implies dot(#[trigger] child.a[i], x, child.cols()) == dot(
        m.a[i],
        y,
        n,
    ) && child.b[i] == m.b[i] by {
        lemma_child_keeps_rows(m, k, f, upper, i, x);
    }
    let bound = if upper {
        x[k] + x[last] == floor * q
    } else {
        x[k] - x[last] == (floor + 1) * q
    };
    // The bound, multiplied out by the denominator, given that row `r` of
    // the parent holds.
    if held == m.b[r] * q {
        if upper {
            assert((m.d * x[k] + m.d * x[last] - held == (-f) * q) <==> bound) by (nonlinear_arith)
                requires
                    held == m.b[r] * q,
                    m.b[r] == m.d * floor + f,
                    m.d > 0,
                    bound == (x[k] + x[last] == floor * q),
            ;
        } else {
            assert((held - m.d * x[k] + m.d * x[last] == (f - m.d) * q) <==> bound) by (nonlinear_arith)
                requires
                    held == m.b[r] * q,
                    m.b[r] == m.d * floor + f,
                    m.d > 0,
                    bound == (x[k] - x[last] == (floor + 1) * q),
            ;
        }
    }
    if satisfies(child, x, q) {
        assert forall|i: int| 0 <= i < m.rows() implies dot(#[trigger] m.a[i], y, m.cols()) == m.b[i] * q by {
            assert(dot(child.a[i], x, child.cols()) == child.b[i] * q);
        }
        assert(dot(child.a[rows], x, child.cols()) == child.b[rows] * q);
        assert(held == m.b[r] * q);
    }
    if satisfies(m, y, q) && bound {
        assert(held == m.b[r] * q);
        assert forall|i: int| 0 <= i < child.rows() implies dot(#[trigger] child.a[i], x, child.cols())
            == child.b[i] * q by {
            if i < rows {
                assert(dot(m.a[i], y, n) == m.b[i] * q);
            }
        }
    }
}

/// Branch completeness, the bounds. Every point of the feasible region of the
/// child for the bound `variable <= floor` has the branched variable at most
/// at the floor, and every point of the feasible region of the other child
/// has it at least at the floor plus one. For a variable between zero and one
/// these bounds are zero and one.
pub proof fn lemma_branch_bounds(m: TableauModel, k: int, upper: bool, x: Seq<int>, q: int)
    requires
        m.wf(),
        0 <= k < m.cols(),
        first_one_row(m, k) >= 0,
        feasible(child_tableau(m, k, m.b[first_one_row(m, k)] % m.d, upper), x, q),
    ensures
        feasible(m, x.take(m.cols() as int), q),
        upper ==> x[k] <= branch_floor(m, k) * q,
        !upper ==> x[k] >= (branch_floor(m, k) + 1) * q,
{
    lemma_child_solutions(m, k, upper, x, q);
    let y = x.take(m.cols() as int);
    assert forall|j: int| 0 <= j < y.len() implies #[trigger] y[j] >= 0 by {
        assert(x[j] >= 0);
    }
    assert(x[m.cols() as int] >= 0);
}

/// Branch completeness, the cover. Every point of the feasible region of the
/// parent whose branched variable is at most at the floor becomes a point of
/// the feasible region of the child for the bound `variable <= floor` when it
/// is given the slack as one more coordinate, and every point whose branched
/// variable is at least at the floor plus one becomes a point of the other
/// child when it is given the surplus. Together with [`lemma_branch_bounds`]:
/// the children hold the parent's feasible region less the points whose
/// branched variable lies strictly between the floor and the floor plus one.
pub proof fn lemma_branch_cover(m: TableauModel, k: int, upper: bool, y: Seq<int>, q: int)
    requires
        m.wf(),
        0 <= k < m.cols(),
        first_one_row(m, k) >= 0,
        feasible(m, y, q),
        upper ==> y[k] <= branch_floor(m, k) * q,
        !upper ==> y[k] >= (branch_floor(m, k) + 1) * q,
    ensures
        feasible(
            child_tableau(m, k, m.b[first_one_row(m, k)] % m.d, upper),
            y.push(
                if upper {
                    branch_floor(m, k) * q - y[k]
                } else {
                    y[k] - (branch_floor(m, k) + 1) * q
                },
            ),
            q,
        ),
{
    let extra = if upper {
        branch_floor(m, k) * q - y[k]
    } else {
        y[k] - (branch_floor(m, k) + 1) * q
    };
    let x = y.push(extra);
    assert(x.take(m.cols() as int) =~= y);
    assert(x[k] == y[k]);
    lemma_child_solutions(m, k, upper, x, q);
    assert forall|j: int| 0 <= j < x.len() implies #[trigger] x[j] >= 0 by {
        if j < y.len() {
            assert(y[j] >= 0);
        }
    }
}

/// The relaxation bounds its children. Where the objective row of the parent
/// has no negative coefficient, no point of the feasible region of a child,
/// as built or as solved, has a larger objective than the objective constant
/// of the parent.
pub proof fn lemma_relaxation_bounds_children(
    m: TableauModel,
    k: int,
    upper: bool,
    fuel: nat,
    x: Seq<int>,
    q: int,
)
    requires
        m.wf(),
        dual_feasible(m),
        0 <= k < m.cols(),
        first_one_row(m, k) >= 0,
        feasible(dual_solve(child_tableau(m, k, m.b[first_one_row(m, k)] % m.d, upper), fuel).0, x, q),
    ensures
        child_tableau(m, k, m.b[first_one_row(m, k)] % m.d, upper).d == m.d,
        feasible(child_tableau(m, k, m.b[first_one_row(m, k)] % m.d, upper), x, q),
        objective_at(child_tableau(m, k, m.b[first_one_row(m, k)] % m.d, upper), x, q) <= m.z * q,
{
    let f = m.b[first_one_row(m, k)] % m.d;
    let child = child_tableau(m, k, f, upper);
    assert(child.wf());
    lemma_dual_solve_keeps_solutions(child, fuel, x, q);
    lemma_branch_bounds(m, k, upper, x, q);
    lemma_child_keeps_objective(m, k, f, upper, x, q);
    lemma_optimal_bounds_objective(m, x.take(m.cols() as int), q);
}

} // verus!

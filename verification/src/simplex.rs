//! The primal and the dual simplex method: pivoting until the tableau is
//! optimal, or until it is known that it cannot be.

use vstd::prelude::*;
use crate::arith::magnitude;
use crate::arith::signum;
use crate::pivot::lemma_pivot_exact;
use crate::pivot::lemma_pivot_model_entries;
use crate::pivot::pivot_coef;
use crate::pivot::pivot_defined;
use crate::pivot::pivot_fits;
use crate::pivot::pivot_gcd;
use crate::pivot::pivot_model;
use crate::pivot::SolveError;
use crate::registry::registry_view;
use crate::registry::VariableInfo;
use crate::registry::VariableModel;
use crate::select::dual_denominators;
use crate::select::dual_entering;
use crate::select::dual_leaving;
use crate::select::dual_numerators;
use crate::select::get_dual_enter_var;
use crate::select::get_dual_leaving_var;
use crate::select::get_primal_enter_var;
use crate::select::get_primal_leaving_var;
use crate::select::is_min_ratio;
use crate::select::is_most_negative;
use crate::select::most_negative;
use crate::select::primal_entering;
use crate::select::primal_leaving;
use crate::select::ratio_candidate;
use crate::tableau::Tableau;
use crate::tableau::TableauModel;
use crate::trace::record;
use crate::trace::trace_view;
use crate::trace::EventModel;
use crate::trace::TraceEvent;

verus! {

/// The tableau is dual feasible, which for the primal method means optimal:
/// no coefficient of the objective row is negative.
pub open spec fn dual_feasible(m: TableauModel) -> bool {
    forall|j: int| 0 <= j < m.cols() ==> #[trigger] m.c[j] >= 0
}

/// The primal method with a ceiling of `fuel` pivots: the tableau it stops
/// on and what it reports.
///
/// While some objective coefficient is negative, the method pivots on the
/// entering column and the leaving row that the selection rules name. It
/// reports `Unbounded` where there is no leaving row, `CyclingSuspected` where
/// a pivot is due and the ceiling is reached, and `Overflow` where the pivoted
/// tableau does not fit the machine representation.
pub open spec fn primal_run(m: TableauModel, fuel: nat) -> (TableauModel, Result<(), SolveError>)
    decreases fuel,
{
    let e = primal_entering(m.c);
    let r = primal_leaving(m.b, m.column(e));
    if dual_feasible(m) {
        (m, Ok(()))
    } else if r < 0 {
        (m, Err(SolveError::Unbounded))
    } else if fuel == 0 {
        (m, Err(SolveError::CyclingSuspected))
    } else if !pivot_fits(m, e, r) {
        (m, Err(SolveError::Overflow))
    } else {
        primal_run(pivot_model(m, e, r), (fuel - 1) as nat)
    }
}

/// The primal method reports success only on a tableau whose objective row
/// has no negative coefficient.
pub proof fn lemma_primal_run_optimal(m: TableauModel, fuel: nat)
    ensures
        primal_run(m, fuel).1 is Ok ==> dual_feasible(primal_run(m, fuel).0),
        primal_run(m, fuel).1 is Err ==> !dual_feasible(primal_run(m, fuel).0),
        !(primal_run(m, fuel).1 matches Err(SolveError::Infeasible)),
        !(primal_run(m, fuel).1 matches Err(SolveError::ZeroPivot)),
    decreases fuel,
{
    let e = primal_entering(m.c);
    let r = primal_leaving(m.b, m.column(e));
    if !dual_feasible(m) && r >= 0 && fuel > 0 && pivot_fits(m, e, r) {
        lemma_primal_run_optimal(pivot_model(m, e, r), (fuel - 1) as nat);
    }
}

/// On a tableau whose objective row has no negative coefficient, no single
/// pivot that keeps the entering variable from going negative improves the
/// objective: after a pivot on an element whose ratio to the right-hand side
/// of its row is not negative, the objective constant is at most what it was.
pub proof fn lemma_no_improving_pivot(m: TableauModel, e: int, r: int)
    requires
        m.wf(),
        dual_feasible(m),
        pivot_defined(m, e, r),
        m.b[r] * m.a[r][e] >= 0,
    ensures
        pivot_model(m, e, r).d > 0,
        pivot_model(m, e, r).z * m.d <= m.z * pivot_model(m, e, r).d,
{
    let n = pivot_model(m, e, r);
    let g = pivot_gcd(m, e, r) as int;
    let p = m.a[r][e];
    let s = signum(p);
    let rows = m.rows() as int;
    let cols = m.cols() as int;
    lemma_pivot_model_entries(m, e, r);
    lemma_pivot_exact(m, e, r);
    assert(n.entry(rows, cols) * g == s * (m.z * p - m.c[e] * m.b[r]));
    assert(n.d * g == m.d * magnitude(p));
    assert(m.c[e] >= 0);
    assert(s * p == magnitude(p)) by (nonlinear_arith)
        requires
            s == signum(p),
    ;
    let loss = s * (m.c[e] * m.b[r]);
    assert(loss >= 0) by (nonlinear_arith)
        requires
            loss == s * (m.c[e] * m.b[r]),
            m.c[e] >= 0,
            m.b[r] * p >= 0,
            s == signum(p),
            p != 0,
    ;
    assert(s * (m.z * p - m.c[e] * m.b[r]) == m.z * (s * p) - loss) by (nonlinear_arith)
        requires
            loss == s * (m.c[e] * m.b[r]),
    ;
    let gain = m.z * (s * p);
    assert((n.z * m.d) * g == (gain - loss) * m.d) by (nonlinear_arith)
        requires
            n.z * g == gain - loss,
    ;
    assert((m.z * n.d) * g == gain * m.d) by (nonlinear_arith)
        requires
            n.d * g == m.d * (s * p),
            gain == m.z * (s * p),
    ;
    assert((gain - loss) * m.d <= gain * m.d) by (nonlinear_arith)
        requires
            loss >= 0,
            m.d > 0,
    ;
    assert(n.z * m.d <= m.z * n.d) by (nonlinear_arith)
        requires
            (n.z * m.d) * g <= (m.z * n.d) * g,
            g > 0,
    ;
}

/// Drives the tableau to optimality by primal pivots, at most `max_pivots`
/// of them.
///
/// Returns `Ok` when no coefficient of the objective row is negative;
/// otherwise the tableau is left as it was when the method gave up, and the
/// error says why: `Unbounded`, `CyclingSuspected` or `Overflow`.
pub fn get_optimal_primal(t: &mut Tableau, max_pivots: usize) -> (done: Result<(), SolveError>)
    requires
        old(t).wf(),
    ensures
        final(t).wf(),
        (final(t)@, done) == primal_run(old(t)@, max_pivots as nat),
        done is Ok <==> dual_feasible(final(t)@),
        final(t)@.rows() == old(t)@.rows(),
        final(t)@.cols() == old(t)@.cols(),
{
    let ghost start = t@;
    let mut left: usize = max_pivots;
    proof {
        lemma_primal_run_optimal(start, max_pivots as nat);
    }
    loop
        invariant
            t.wf(),
            start == old(t)@,
            t@.rows() == start.rows(),
            t@.cols() == start.cols(),
            primal_run(t@, left as nat) == primal_run(start, max_pivots as nat),
        decreases left,
    {
        proof {
            t.lemma_wf();
        }
        let enter_idx = get_primal_enter_var(t);
        if enter_idx == -1 {
            assert(dual_feasible(t@));
            return Ok(());
        }
        assert(!dual_feasible(t@)) by {
            assert(t@.c[enter_idx as int] < 0);
        }
        let leaving_idx = get_primal_leaving_var(t, enter_idx);
        if leaving_idx == -1 {
            return Err(SolveError::Unbounded);
        }
        if left == 0 {
            return Err(SolveError::CyclingSuspected);
        }
        assert(t@.a[leaving_idx as int][enter_idx as int] > 0) by {
            assert(ratio_candidate(t@.b, t@.column(enter_idx as int), leaving_idx as int));
        }
        match pivot_coef(t, enter_idx, leaving_idx) {
            Err(e) => {
                return Err(e);
            },
            Ok(()) => {
                left = left - 1;
            },
        }
    }
}

/// The tolerance of the feasibility test is `1 / TOLERANCE_PARTS`.
pub const TOLERANCE_PARTS: i64 = 1_000_000;

/// The tableau is primal feasible within the tolerance: no right-hand side
/// is below `-1 / TOLERANCE_PARTS`.
pub open spec fn primal_feasible(m: TableauModel) -> bool {
    forall|i: int| 0 <= i < m.rows() ==> #[trigger] m.b[i] * TOLERANCE_PARTS >= -m.d
}

/// The dual method with a ceiling of `fuel` pivots: the tableau it stops on
/// and what it reports.
///
/// While some right-hand side is below the tolerance, the method pivots on
/// the leaving row and the entering column that the selection rules name. It
/// reports `Infeasible` where there is no entering column,
/// `CyclingSuspected` where a pivot is due and the ceiling is reached, and
/// `Overflow` where the pivoted tableau does not fit the machine
/// representation.
pub open spec fn dual_run(m: TableauModel, fuel: nat) -> (TableauModel, Result<(), SolveError>)
    decreases fuel,
{
    let r = dual_leaving(m.b);
    let e = dual_entering(m.c, m.a[r]);
    if primal_feasible(m) {
        (m, Ok(()))
    } else if e < 0 {
        (m, Err(SolveError::Infeasible))
    } else if fuel == 0 {
        (m, Err(SolveError::CyclingSuspected))
    } else if !pivot_fits(m, e, r) {
        (m, Err(SolveError::Overflow))
    } else {
        dual_run(pivot_model(m, e, r), (fuel - 1) as nat)
    }
}

/// The dual method followed by the primal method, each with a ceiling of
/// `fuel` pivots; the primal method runs only where the dual method succeeds.
pub open spec fn dual_solve(m: TableauModel, fuel: nat) -> (TableauModel, Result<(), SolveError>) {
    let first = dual_run(m, fuel);
    if first.1 is Ok {
        primal_run(first.0, fuel)
    } else {
        first
    }
}

/// What the dual method reports from the tableau `m` on, with a ceiling of
/// `fuel` pivots, where `started` says whether a pivot has been made before.
///
/// The first pivot of a run is reported with its entering variable and its
/// leaving row, and a leaving row for which no entering column is found is
/// reported whenever the run ends on it. Rows are counted from one.
pub open spec fn dual_log_from(
    m: TableauModel,
    registry: Seq<VariableModel>,
    fuel: nat,
    started: bool,
) -> Seq<EventModel>
    decreases fuel,
{
    let r = dual_leaving(m.b);
    let e = dual_entering(m.c, m.a[r]);
    if primal_feasible(m) {
        Seq::empty()
    } else if e < 0 {
        seq![EventModel::DualStuck { leaving_row: r + 1 }]
    } else if fuel == 0 || !pivot_fits(m, e, r) {
        Seq::empty()
    } else {
        (if started {
            Seq::empty()
        } else {
            seq![EventModel::DualStart { variable: registry[e], leaving_row: r + 1 }]
        }) + dual_log_from(pivot_model(m, e, r), registry, (fuel - 1) as nat, true)
    }
}

/// What a run of the dual method reports: its first pivot, where it makes
/// one, and then the leaving row that had no entering column, where the run
/// ends `Infeasible`.
pub open spec fn dual_log(m: TableauModel, registry: Seq<VariableModel>, fuel: nat) -> Seq<EventModel> {
    dual_log_from(m, registry, fuel, false)
}

/// No column of row `r` is degenerate for the dual ratio test: where the
/// coefficient is negative, the objective coefficient is not zero.
pub open spec fn dual_row_regular(m: TableauModel, r: int) -> bool {
    forall|j: int| 0 <= j < m.cols() && #[trigger] m.a[r][j] < 0 ==> m.c[j] != 0
}

/// Every leaving row that the dual method meets within `fuel` pivots is
/// regular.
pub open spec fn dual_regular(m: TableauModel, fuel: nat) -> bool
    decreases fuel,
{
    let r = dual_leaving(m.b);
    let e = dual_entering(m.c, m.a[r]);
    if primal_feasible(m) {
        true
    } else {
        &&& dual_row_regular(m, r)
        &&& (e < 0 || fuel == 0 || !pivot_fits(m, e, r) || dual_regular(
            pivot_model(m, e, r),
            (fuel - 1) as nat,
        ))
    }
}

/// A dual pivot on a regular leaving row keeps the objective row free of
/// negative coefficients.
pub proof fn lemma_dual_pivot_keeps_dual_feasible(m: TableauModel, r: int)
    requires
        m.wf(),
        dual_feasible(m),
        0 <= r < m.rows(),
        dual_entering(m.c, m.a[r]) >= 0,
        dual_row_regular(m, r),
    ensures
        pivot_defined(m, dual_entering(m.c, m.a[r]), r),
        dual_feasible(pivot_model(m, dual_entering(m.c, m.a[r]), r)),
{
    let e = dual_entering(m.c, m.a[r]);
    let leave = m.a[r];
    let num = dual_numerators(m.c);
    let den = dual_denominators(leave.take(m.c.len() as int));
    assert(is_min_ratio(num, den, e));
    assert(ratio_candidate(num, den, e));
    let p = m.a[r][e];
    assert(p < 0);
    assert(m.c[e] >= 0);
    let n = pivot_model(m, e, r);
    let g = pivot_gcd(m, e, r) as int;
    let rows = m.rows() as int;
    lemma_pivot_model_entries(m, e, r);
    lemma_pivot_exact(m, e, r);
    assert forall|j: int| 0 <= j < n.cols() implies #[trigger] n.c[j] >= 0 by {
        assert(n.entry(rows, j) * g == -(m.c[j] * p - m.c[e] * m.a[r][j]));
        assert(m.c[j] >= 0);
        let gain = m.c[e] * m.a[r][j] - m.c[j] * p;
        if m.a[r][j] >= 0 {
            assert(gain >= 0) by (nonlinear_arith)
                requires
                    gain == m.c[e] * m.a[r][j] - m.c[j] * p,
                    m.c[e] >= 0,
                    m.a[r][j] >= 0,
                    m.c[j] >= 0,
                    p < 0,
            ;
        } else {
            assert(m.c[j] != 0);
            assert(ratio_candidate(num, den, j));
            assert(num[e] * den[j] <= num[j] * den[e]);
            assert(m.c[e] * (-m.a[r][j]) <= m.c[j] * (-p));
            assert(gain >= 0) by (nonlinear_arith)
                requires
                    gain == m.c[e] * m.a[r][j] - m.c[j] * p,
                    m.c[e] * (-m.a[r][j]) <= m.c[j] * (-p),
            ;
        }
        assert(n.c[j] >= 0) by (nonlinear_arith)
            requires
                n.c[j] * g == gain,
                gain >= 0,
                g > 0,
        ;
    }
}

/// On a tableau whose objective row has no negative coefficient, the dual
/// method along regular leaving rows keeps it so, and where it succeeds the
/// tableau is primal feasible within the tolerance as well.
pub proof fn lemma_dual_run_regular(m: TableauModel, fuel: nat)
    requires
        m.wf(),
        dual_feasible(m),
        dual_regular(m, fuel),
    ensures
        dual_feasible(dual_run(m, fuel).0),
        dual_run(m, fuel).1 is Ok ==> primal_feasible(dual_run(m, fuel).0),
        !(dual_run(m, fuel).1 matches Err(SolveError::Unbounded)),
        !(dual_run(m, fuel).1 matches Err(SolveError::ZeroPivot)),
    decreases fuel,
{
    let r = dual_leaving(m.b);
    let e = dual_entering(m.c, m.a[r]);
    if !primal_feasible(m) && e >= 0 && fuel > 0 && pivot_fits(m, e, r) {
        lemma_dual_leaving_row(m);
        lemma_dual_pivot_keeps_dual_feasible(m, r);
        lemma_pivot_exact(m, e, r);
        lemma_dual_run_regular(pivot_model(m, e, r), (fuel - 1) as nat);
    }
}

/// Where some right-hand side is below the tolerance, the dual method has a
/// leaving row.
pub proof fn lemma_dual_leaving_row(m: TableauModel)
    requires
        m.wf(),
        !primal_feasible(m),
    ensures
        0 <= dual_leaving(m.b) < m.rows(),
        is_most_negative(m.b, dual_leaving(m.b)),
{
    let i = choose|i: int| 0 <= i < m.rows() && !(#[trigger] m.b[i] * TOLERANCE_PARTS >= -m.d);
    assert(m.b[i] < 0);
    lemma_most_negative_exists(m.b, m.b.len());
}

/// A sequence with a negative element among its first `n` has a most
/// negative element among them.
pub proof fn lemma_most_negative_exists(s: Seq<int>, n: nat)
    requires
        n <= s.len(),
        exists|i: int| 0 <= i < n && #[trigger] s[i] < 0,
    ensures
        exists|k: int| is_most_negative(s.take(n as int), k),
        n == s.len() ==> 0 <= most_negative(s) < s.len() && is_most_negative(
            s,
            most_negative(s),
        ),
    decreases n,
{
    let last = n - 1;
    let head = s.take(last);
    let whole = s.take(n as int);
    if exists|i: int| 0 <= i < last && #[trigger] s[i] < 0 {
        lemma_most_negative_exists(s, last as nat);
        let k = choose|k: int| is_most_negative(head, k);
        assert(head[k] == whole[k]);
        if s[last] < head[k] {
            assert forall|j: int| 0 <= j < whole.len() implies whole[last] <= #[trigger] whole[j] by {
                if j < last {
                    assert(head[j] == whole[j]);
                }
            }
            assert forall|j: int| 0 <= j < last implies whole[last] < #[trigger] whole[j] by {
                assert(head[j] == whole[j]);
            }
            assert(is_most_negative(whole, last));
        } else {
            assert forall|j: int| 0 <= j < whole.len() implies whole[k] <= #[trigger] whole[j] by {
                if j < last {
                    assert(head[j] == whole[j]);
                }
            }
            assert forall|j: int| 0 <= j < k implies whole[k] < #[trigger] whole[j] by {
                assert(head[j] == whole[j]);
            }
            assert(is_most_negative(whole, k));
        }
    } else {
        assert(s[last] < 0);
        assert forall|j: int| 0 <= j < whole.len() implies whole[last] <= #[trigger] whole[j] by {
            if j < last {
                assert(!(s[j] < 0));
            }
        }
        assert forall|j: int| 0 <= j < last implies whole[last] < #[trigger] whole[j] by {
            assert(!(s[j] < 0));
        }
        assert(is_most_negative(whole, last));
    }
    if n == s.len() {
        assert(whole =~= s);
    }
}

/// The dual method pivots only where a pivot is defined: its leaving row
/// lies in the tableau, and its entering column holds a negative element
/// there.
pub proof fn lemma_dual_pivot_defined(m: TableauModel)
    requires
        m.wf(),
        !primal_feasible(m),
        dual_entering(m.c, m.a[dual_leaving(m.b)]) >= 0,
    ensures
        pivot_defined(m, dual_entering(m.c, m.a[dual_leaving(m.b)]), dual_leaving(m.b)),
        m.a[dual_leaving(m.b)][dual_entering(m.c, m.a[dual_leaving(m.b)])] < 0,
{
    lemma_dual_leaving_row(m);
    let r = dual_leaving(m.b);
    let e = dual_entering(m.c, m.a[r]);
    let num = dual_numerators(m.c);
    let den = dual_denominators(m.a[r].take(m.c.len() as int));
    assert(is_min_ratio(num, den, e));
    assert(ratio_candidate(num, den, e));
}

/// The primal method pivots only where a pivot is defined: its entering
/// column lies in the tableau, and its leaving row holds a positive element
/// there and has a positive right-hand side.
pub proof fn lemma_primal_pivot_defined(m: TableauModel)
    requires
        m.wf(),
        !dual_feasible(m),
        primal_leaving(m.b, m.column(primal_entering(m.c))) >= 0,
    ensures
        pivot_defined(m, primal_entering(m.c), primal_leaving(m.b, m.column(primal_entering(m.c)))),
        m.a[primal_leaving(m.b, m.column(primal_entering(m.c)))][primal_entering(m.c)] > 0,
        m.b[primal_leaving(m.b, m.column(primal_entering(m.c)))] > 0,
        is_min_ratio(
            m.b,
            m.column(primal_entering(m.c)),
            primal_leaving(m.b, m.column(primal_entering(m.c))),
        ),
{
    let j = choose|j: int| 0 <= j < m.cols() && !(#[trigger] m.c[j] >= 0);
    assert(m.c[j] < 0);
    lemma_most_negative_exists(m.c, m.c.len());
    let e = primal_entering(m.c);
    let r = primal_leaving(m.b, m.column(e));
    assert(is_min_ratio(m.b, m.column(e), r));
    assert(ratio_candidate(m.b, m.column(e), r));
}

/// The dual method keeps the tableau well formed.
pub proof fn lemma_dual_run_wf(m: TableauModel, fuel: nat)
    requires
        m.wf(),
    ensures
        dual_run(m, fuel).0.wf(),
    decreases fuel,
{
    let r = dual_leaving(m.b);
    let e = dual_entering(m.c, m.a[r]);
    if !primal_feasible(m) && e >= 0 && fuel > 0 && pivot_fits(m, e, r) {
        lemma_dual_pivot_defined(m);
        lemma_pivot_exact(m, e, r);
        lemma_dual_run_wf(pivot_model(m, e, r), (fuel - 1) as nat);
    }
}

/// Nothing stands in the way of the entering column `e`: every row with a
/// positive coefficient in that column has a positive right-hand side, and so
/// takes part in the ratio test.
pub open spec fn primal_column_regular(m: TableauModel, e: int) -> bool {
    forall|i: int| 0 <= i < m.rows() && #[trigger] m.a[i][e] > 0 ==> m.b[i] > 0
}

/// Every entering column that the primal method meets within `fuel` pivots
/// is regular.
pub open spec fn primal_regular(m: TableauModel, fuel: nat) -> bool
    decreases fuel,
{
    let e = primal_entering(m.c);
    let r = primal_leaving(m.b, m.column(e));
    if dual_feasible(m) {
        true
    } else {
        &&& primal_column_regular(m, e)
        &&& (r < 0 || fuel == 0 || !pivot_fits(m, e, r) || primal_regular(
            pivot_model(m, e, r),
            (fuel - 1) as nat,
        ))
    }
}

/// A primal pivot on a regular entering column keeps the tableau primal
/// feasible within the tolerance.
pub proof fn lemma_primal_pivot_keeps_primal_feasible(m: TableauModel)
    requires
        m.wf(),
        primal_feasible(m),
        !dual_feasible(m),
        primal_leaving(m.b, m.column(primal_entering(m.c))) >= 0,
        primal_column_regular(m, primal_entering(m.c)),
    ensures
        primal_feasible(
            pivot_model(m, primal_entering(m.c), primal_leaving(m.b, m.column(primal_entering(m.c)))),
        ),
{
    let e = primal_entering(m.c);
    let r = primal_leaving(m.b, m.column(e));
    lemma_primal_pivot_defined(m);
    let p = m.a[r][e];
    let n = pivot_model(m, e, r);
    let g = pivot_gcd(m, e, r) as int;
    let cols = m.cols() as int;
    let parts = TOLERANCE_PARTS as int;
    lemma_pivot_model_entries(m, e, r);
    lemma_pivot_exact(m, e, r);
    assert(n.d * g == m.d * p);
    assert(m.d * p > 0) by (nonlinear_arith)
        requires
            m.d > 0,
            p > 0,
    ;
    assert forall|i: int| 0 <= i < n.rows() implies #[trigger] n.b[i] * TOLERANCE_PARTS >= -n.d by {
        let raw = n.entry(i, cols) * g;
        assert(n.entry(i, cols) == n.b[i]);
        if i == r {
            assert(raw == m.b[r] * m.d);
            assert(raw * parts >= -(m.d * p)) by (nonlinear_arith)
                requires
                    raw == m.b[r] * m.d,
                    m.b[r] > 0,
                    m.d > 0,
                    m.d * p > 0,
                    parts > 0,
            ;
        } else {
            let own = m.b[i] * p;
            let taken = m.a[i][e] * m.b[r];
            assert(m.entry(i, cols) == m.b[i] && m.entry(i, e) == m.a[i][e] && m.entry(r, cols) == m.b[r]);
            assert(raw == own - taken);
            if m.a[i][e] > 0 {
                assert(m.b[i] > 0);
                assert(m.column(e)[i] == m.a[i][e]);
                assert(m.column(e)[r] == p);
                assert(ratio_candidate(m.b, m.column(e), i));
                assert(m.b[r] * m.a[i][e] <= m.b[i] * p);
                assert(taken == m.b[r] * m.a[i][e]) by (nonlinear_arith)
                    requires
                        taken == m.a[i][e] * m.b[r],
                ;
                assert(raw * parts >= -(m.d * p)) by (nonlinear_arith)
                    requires
                        raw >= 0,
                        parts > 0,
                        m.d * p > 0,
                ;
            } else {
                assert(taken <= 0) by (nonlinear_arith)
                    requires
                        taken == m.a[i][e] * m.b[r],
                        m.a[i][e] <= 0,
                        m.b[r] > 0,
                ;
                assert(m.b[i] * parts >= -m.d);
                assert(own * parts >= -(m.d * p)) by (nonlinear_arith)
                    requires
                        own == m.b[i] * p,
                        m.b[i] * parts >= -m.d,
                        p > 0,
                ;
                assert(raw * parts >= own * parts) by (nonlinear_arith)
                    requires
                        raw >= own,
                        parts > 0,
                ;
            }
        }
        assert((n.b[i] * parts + n.d) * g == raw * parts + m.d * p) by (nonlinear_arith)
            requires
                raw == n.b[i] * g,
                n.d * g == m.d * p,
        ;
        assert(n.b[i] * parts + n.d >= 0) by (nonlinear_arith)
            requires
                (n.b[i] * parts + n.d) * g >= 0,
                g > 0,
        ;
    }
}

/// From a tableau that is primal feasible within the tolerance, the primal
/// method along regular entering columns ends on such a tableau.
pub proof fn lemma_primal_run_regular(m: TableauModel, fuel: nat)
    requires
        m.wf(),
        primal_feasible(m),
        primal_regular(m, fuel),
    ensures
        primal_feasible(primal_run(m, fuel).0),
    decreases fuel,
{
    let e = primal_entering(m.c);
    let r = primal_leaving(m.b, m.column(e));
    if !dual_feasible(m) && r >= 0 && fuel > 0 && pivot_fits(m, e, r) {
        lemma_primal_pivot_defined(m);
        lemma_primal_pivot_keeps_primal_feasible(m);
        lemma_pivot_exact(m, e, r);
        lemma_primal_run_regular(pivot_model(m, e, r), (fuel - 1) as nat);
    }
}

/// Dual-then-primal consistency. Where the primal phase that follows a
/// successful dual phase meets regular entering columns only, the dual method
/// followed by the primal method either ends on a tableau that is primal
/// feasible within the tolerance and has no negative objective coefficient,
/// or reports `Infeasible` or `Unbounded`, or gives up for the pivot ceiling
/// or the machine representation.
///
/// The premise holds in particular where the dual phase leaves the objective
/// row free of negative coefficients, for then the primal phase makes no
/// pivot; [`lemma_dual_run_regular`] shows that it does so on a tableau whose
/// objective row has no negative coefficient and whose leaving rows are
/// regular.
pub proof fn lemma_dual_then_primal(m: TableauModel, fuel: nat)
    requires
        m.wf(),
        dual_run(m, fuel).1 is Ok ==> primal_regular(dual_run(m, fuel).0, fuel),
    ensures
        dual_solve(m, fuel).1 is Ok ==> primal_feasible(dual_solve(m, fuel).0) && dual_feasible(
            dual_solve(m, fuel).0,
        ),
        dual_solve(m, fuel).1 matches Err(e) ==> e == SolveError::Infeasible || e == SolveError::Unbounded
            || e == SolveError::CyclingSuspected || e == SolveError::Overflow,
{
    lemma_dual_run_failures(m, fuel);
    lemma_dual_run_wf(m, fuel);
    let first = dual_run(m, fuel);
    if first.1 is Ok {
        lemma_primal_run_regular(first.0, fuel);
        lemma_primal_run_optimal(first.0, fuel);
    }
}

/// The dual method reports `Infeasible` exactly where it ends on a tableau
/// that has a right-hand side below the tolerance and no entering column for
/// its leaving row.
pub proof fn lemma_dual_run_infeasible(m: TableauModel, fuel: nat)
    ensures
        dual_run(m, fuel).1 == Err::<(), SolveError>(SolveError::Infeasible) <==> (!primal_feasible(
            dual_run(m, fuel).0,
        ) && dual_entering(
            dual_run(m, fuel).0.c,
            dual_run(m, fuel).0.a[dual_leaving(dual_run(m, fuel).0.b)],
        ) < 0),
    decreases fuel,
{
    let r = dual_leaving(m.b);
    let e = dual_entering(m.c, m.a[r]);
    if !primal_feasible(m) && e >= 0 && fuel > 0 && pivot_fits(m, e, r) {
        lemma_dual_run_infeasible(pivot_model(m, e, r), (fuel - 1) as nat);
    }
}

/// The dual method fails only as `Infeasible`, `CyclingSuspected` or
/// `Overflow`.
pub proof fn lemma_dual_run_failures(m: TableauModel, fuel: nat)
    ensures
        dual_run(m, fuel).1 matches Err(e) ==> e == SolveError::Infeasible || e
            == SolveError::CyclingSuspected || e == SolveError::Overflow,
        dual_run(m, fuel).1 is Ok ==> primal_feasible(dual_run(m, fuel).0),
    decreases fuel,
{
    let r = dual_leaving(m.b);
    let e = dual_entering(m.c, m.a[r]);
    if !primal_feasible(m) && e >= 0 && fuel > 0 && pivot_fits(m, e, r) {
        lemma_dual_run_failures(pivot_model(m, e, r), (fuel - 1) as nat);
    }
}

/// Whether no right-hand side is below the tolerance.
fn is_primal_feasible(t: &Tableau) -> (yes: bool)
    requires
        t.wf(),
    ensures
        yes == primal_feasible(t@),
{
    proof {
        t.lemma_wf();
    }
    let rows = t.rows();
    let scale = t.scale();
    let mut i: usize = 0;
    while i < rows
        invariant
            t.wf(),
            rows == t@.rows(),
            scale == t@.d,
            i <= rows,
            forall|k: int| 0 <= k < i ==> #[trigger] t@.b[k] * TOLERANCE_PARTS >= -t@.d,
        decreases rows - i,
    {
        let value = t.rhs(i);
        if (value as i128) * (TOLERANCE_PARTS as i128) < -(scale as i128) {
            return false;
        }
        i += 1;
    }
    true
}

/// Restores feasibility by dual pivots, at most `max_pivots` of them, and
/// then drives the tableau to optimality by primal pivots, again at most
/// `max_pivots` of them.
///
/// The first dual pivot is recorded in `trace` when it has been made, and so
/// is the leaving row for which no entering column was found, whenever the
/// method ends `Infeasible`; `var_map` names the variable of each column.
/// Returns `Ok` on a tableau whose objective row has no negative coefficient;
/// otherwise the tableau is left as it was when the method gave up, and the
/// error says why.
pub fn get_optimal_dual(
    t: &mut Tableau,
    trace: &mut Vec<TraceEvent>,
    var_map: &Vec<VariableInfo>,
    max_pivots: usize,
) -> (done: Result<(), SolveError>)
    requires
        old(t).wf(),
        var_map@.len() >= old(t)@.cols(),
    ensures
        final(t).wf(),
        (final(t)@, done) == dual_solve(old(t)@, max_pivots as nat),
        trace_view(final(trace)@) == trace_view(old(trace)@) + dual_log(
            old(t)@,
            registry_view(var_map@),
            max_pivots as nat,
        ),
        done is Ok ==> dual_feasible(final(t)@),
        final(t)@.rows() == old(t)@.rows(),
        final(t)@.cols() == old(t)@.cols(),
{
    let ghost start = t@;
    let ghost registry = registry_view(var_map@);
    let ghost before = trace_view(trace@);
    let ghost whole = dual_log(start, registry, max_pivots as nat);
    let mut left: usize = max_pivots;
    let mut initial_pivot = false;
    proof {
        assert(before + whole =~= before + whole);
    }
    loop
        invariant
            t.wf(),
            start == old(t)@,
            before == trace_view(old(trace)@),
            registry == registry_view(var_map@),
            whole == dual_log(start, registry, max_pivots as nat),
            var_map@.len() >= t@.cols(),
            t@.rows() == start.rows(),
            t@.cols() == start.cols(),
            dual_run(t@, left as nat) == dual_run(start, max_pivots as nat),
            trace_view(trace@) + dual_log_from(t@, registry, left as nat, initial_pivot) == before + whole,
        decreases left,
    {
        let ghost m = t@;
        let ghost recorded = trace_view(trace@);
        proof {
            t.lemma_wf();
        }
        if is_primal_feasible(t) {
            proof {
                assert(recorded + Seq::<EventModel>::empty() =~= recorded);
                lemma_primal_run_optimal(t@, max_pivots as nat);
            }
            return get_optimal_primal(t, max_pivots);
        }
        proof {
            lemma_dual_leaving_row(t@);
        }
        let leaving_idx = get_dual_leaving_var(t);
        let leave_coef = t.constraint_row(leaving_idx as usize);
        let enter_idx = get_dual_enter_var(t, leave_coef);
        if enter_idx == -1 {
            record(trace, TraceEvent::DualStuck { leaving_row: leaving_idx + 1 });
            proof {
                assert(trace_view(trace@) =~= recorded + dual_log_from(
                    m,
                    registry,
                    left as nat,
                    initial_pivot,
                ));
            }
            return Err(SolveError::Infeasible);
        }
        if left == 0 {
            proof {
                assert(recorded + Seq::<EventModel>::empty() =~= recorded);
            }
            return Err(SolveError::CyclingSuspected);
        }
        match pivot_coef(t, enter_idx, leaving_idx) {
            Err(e) => {
                proof {
                    assert(recorded + Seq::<EventModel>::empty() =~= recorded);
                }
                return Err(e);
            },
            Ok(()) => {
                left = left - 1;
                let ghost rest = dual_log_from(t@, registry, left as nat, true);
                if !initial_pivot {
                    assert(registry[enter_idx as int] == var_map@[enter_idx as int]@);
                    record(
                        trace,
                        TraceEvent::DualStart {
                            variable: var_map[enter_idx as usize].duplicate(),
                            leaving_row: leaving_idx + 1,
                        },
                    );
                    proof {
                        let first = seq![
                            EventModel::DualStart {
                                variable: registry[enter_idx as int],
                                leaving_row: leaving_idx + 1,
                            },
                        ];
                        assert(trace_view(trace@) + rest =~= recorded + (first + rest));
                    }
                } else {
                    proof {
                        assert(recorded + (Seq::<EventModel>::empty() + rest) =~= recorded + rest);
                    }
                }
                initial_pivot = true;
            },
        }
    }
}

} // verus!

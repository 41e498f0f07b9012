//! The pivot operation: one Gauss-Jordan step on the whole tableau, in exact
//! arithmetic, with the result brought to lowest terms.

use vstd::prelude::*;
use crate::arith::divides;
use crate::arith::exact_quotient;
use crate::arith::gcd;
use crate::arith::gcd_u128;
use crate::arith::lemma_divides_exact;
use crate::arith::lemma_cancel;
use crate::arith::lemma_divides_magnitude;
use crate::arith::lemma_divides_scaled;
use crate::arith::lemma_divides_transitive;
use crate::arith::lemma_gcd_divides;
use crate::arith::lemma_multiple_divides;
use crate::arith::lemma_gcd_greatest;
use crate::arith::magnitude;
use crate::arith::magnitude_i128;
use crate::arith::numerator_product;
use crate::arith::signum;
use crate::tableau::lemma_model_extensional;
use crate::tableau::lemma_with_entry;
use crate::tableau::Tableau;
use crate::tableau::TableauModel;
use crate::tableau::MAX_DIMENSION;
use crate::tableau::MAX_MAGNITUDE;

verus! {

/// Why a tableau could not be solved, or a pivot not be carried out.
#[derive(Clone, Copy, Debug, PartialEq, Eq, Structural)]
pub enum SolveError {
    /// The primal ratio test found no leaving row: the objective can improve
    /// without limit.
    Unbounded,
    /// The dual ratio test found no entering column: no pivot restores
    /// feasibility.
    Infeasible,
    /// The pivot ceiling was reached before the method came to an end.
    CyclingSuspected,
    /// A numerator or the denominator of the result does not fit in 64 bits.
    Overflow,
    /// The pivot element is zero.
    ZeroPivot,
}

/// The numerator at `(i, j)` of the extended tableau after a pivot on row `r`
/// and column `e`, over the denominator [`raw_scale`] and before anything is
/// cancelled. With `p` the pivot element, the pivot row is divided by `p`, and
/// from every other row (the objective row among them) the new pivot row is
/// subtracted as often as that row's coefficient in column `e` says.
pub open spec fn raw_entry(m: TableauModel, e: int, r: int, i: int, j: int) -> int {
    let p = m.a[r][e];
    if i == r {
        signum(p) * (m.entry(r, j) * m.d)
    } else {
        signum(p) * (m.entry(i, j) * p - m.entry(i, e) * m.entry(r, j))
    }
}

/// The denominator of the numerators [`raw_entry`].
pub open spec fn raw_scale(m: TableauModel, e: int, r: int) -> int {
    m.d * magnitude(m.a[r][e])
}

/// The greatest common divisor of `acc` and the first `j` raw numerators of
/// row `i`.
pub open spec fn row_gcd(m: TableauModel, e: int, r: int, i: int, j: nat, acc: nat) -> nat
    decreases j,
{
    if j == 0 {
        acc
    } else {
        gcd(row_gcd(m, e, r, i, (j - 1) as nat, acc), magnitude(raw_entry(m, e, r, i, j - 1)))
    }
}

/// The greatest common divisor of the raw denominator and all raw numerators
/// of the first `i` rows of the extended tableau.
pub open spec fn rows_gcd(m: TableauModel, e: int, r: int, i: nat) -> nat
    decreases i,
{
    if i == 0 {
        raw_scale(m, e, r) as nat
    } else {
        row_gcd(m, e, r, i - 1, m.cols() + 1, rows_gcd(m, e, r, (i - 1) as nat))
    }
}

/// The greatest common divisor of the raw denominator and every raw
/// numerator.
pub open spec fn pivot_gcd(m: TableauModel, e: int, r: int) -> nat {
    rows_gcd(m, e, r, m.rows() + 1)
}

/// The tableau after a pivot on row `r` and column `e`: the raw numerators and
/// the raw denominator, all divided by their greatest common divisor.
pub open spec fn pivot_model(m: TableauModel, e: int, r: int) -> TableauModel {
    let g = pivot_gcd(m, e, r) as int;
    TableauModel {
        a: Seq::new(m.rows(), |i: int| Seq::new(m.cols(), |j: int| raw_entry(m, e, r, i, j) / g)),
        b: Seq::new(m.rows(), |i: int| raw_entry(m, e, r, i, m.cols() as int) / g),
        c: Seq::new(m.cols(), |j: int| raw_entry(m, e, r, m.rows() as int, j) / g),
        z: raw_entry(m, e, r, m.rows() as int, m.cols() as int) / g,
        d: raw_scale(m, e, r) / g,
    }
}

/// The result of the pivot fits the machine representation.
pub open spec fn pivot_fits(m: TableauModel, e: int, r: int) -> bool {
    pivot_model(m, e, r).in_range()
}

/// A pivot on row `r` and column `e` is defined: the position lies inside the
/// constraint matrix and the element there is not zero.
pub open spec fn pivot_defined(m: TableauModel, e: int, r: int) -> bool {
    &&& 0 <= r < m.rows()
    &&& 0 <= e < m.cols()
    &&& m.a[r][e] != 0
}

/// The shape of the pivoted tableau and its numerators, position by position.
pub proof fn lemma_pivot_model_entries(m: TableauModel, e: int, r: int)
    requires
        m.wf(),
    ensures
        pivot_model(m, e, r).rows() == m.rows(),
        pivot_model(m, e, r).cols() == m.cols(),
        pivot_model(m, e, r).a.len() == m.rows(),
        forall|i: int| 0 <= i < m.rows() ==> (#[trigger] pivot_model(m, e, r).a[i]).len() == m.cols(),
        forall|i: int, j: int|
            0 <= i <= m.rows() && 0 <= j <= m.cols() ==> #[trigger] pivot_model(m, e, r).entry(i, j)
                == raw_entry(m, e, r, i, j) / (pivot_gcd(m, e, r) as int),
{
}

/// The divisor built up along a row stays positive and divides the divisor it
/// started from and every raw numerator it has met.
pub proof fn lemma_row_gcd(m: TableauModel, e: int, r: int, i: int, j: nat, acc: nat)
    requires
        acc > 0,
    ensures
        row_gcd(m, e, r, i, j, acc) > 0,
        divides(row_gcd(m, e, r, i, j, acc) as int, acc as int),
        forall|k: int|
            0 <= k < j ==> divides(row_gcd(m, e, r, i, j, acc) as int, #[trigger] raw_entry(m, e, r, i, k)),
    decreases j,
{
    if j == 0 {
        lemma_multiple_divides(acc as int, 1);
    } else {
        let before = row_gcd(m, e, r, i, (j - 1) as nat, acc);
        let x = raw_entry(m, e, r, i, j - 1);
        lemma_row_gcd(m, e, r, i, (j - 1) as nat, acc);
        lemma_gcd_divides(before, magnitude(x));
        let g = row_gcd(m, e, r, i, j, acc) as int;
        lemma_divides_transitive(g, before as int, acc as int);
        lemma_divides_magnitude(g, x);
        assert forall|k: int| 0 <= k < j implies divides(g, #[trigger] raw_entry(m, e, r, i, k)) by {
            if k < j - 1 {
                lemma_divides_transitive(g, before as int, raw_entry(m, e, r, i, k));
            }
        }
    }
}

/// The divisor built up over the rows stays positive and divides the raw
/// denominator and every raw numerator of the rows it has met.
pub proof fn lemma_rows_gcd(m: TableauModel, e: int, r: int, i: nat)
    requires
        m.wf(),
        pivot_defined(m, e, r),
    ensures
        rows_gcd(m, e, r, i) > 0,
        divides(rows_gcd(m, e, r, i) as int, raw_scale(m, e, r)),
        forall|p: int, q: int|
            0 <= p < i && 0 <= q <= m.cols() ==> divides(
                rows_gcd(m, e, r, i) as int,
                #[trigger] raw_entry(m, e, r, p, q),
            ),
    decreases i,
{
    lemma_raw_scale_positive(m, e, r);
    if i == 0 {
        lemma_multiple_divides(raw_scale(m, e, r), 1);
    } else {
        let before = rows_gcd(m, e, r, (i - 1) as nat);
        lemma_rows_gcd(m, e, r, (i - 1) as nat);
        lemma_row_gcd(m, e, r, i - 1, m.cols() + 1, before);
        let g = rows_gcd(m, e, r, i) as int;
        lemma_divides_transitive(g, before as int, raw_scale(m, e, r));
        assert forall|p: int, q: int| 0 <= p < i && 0 <= q <= m.cols() implies divides(
            g,
            #[trigger] raw_entry(m, e, r, p, q),
        ) by {
            if p < i - 1 {
                lemma_divides_transitive(g, before as int, raw_entry(m, e, r, p, q));
            }
        }
    }
}

/// The raw denominator of a defined pivot is positive.
pub proof fn lemma_raw_scale_positive(m: TableauModel, e: int, r: int)
    requires
        m.wf(),
        pivot_defined(m, e, r),
    ensures
        raw_scale(m, e, r) > 0,
{
    assert(m.d * magnitude(m.a[r][e]) > 0) by (nonlinear_arith)
        requires
            m.d > 0,
            magnitude(m.a[r][e]) > 0,
    ;
}

/// Cancelling is exact: the greatest common divisor of a defined pivot is
/// positive, and multiplied by it the pivoted tableau gives the raw numerators
/// and the raw denominator back.
pub proof fn lemma_pivot_exact(m: TableauModel, e: int, r: int)
    requires
        m.wf(),
        pivot_defined(m, e, r),
    ensures
        pivot_gcd(m, e, r) > 0,
        pivot_model(m, e, r).wf(),
        pivot_model(m, e, r).d * pivot_gcd(m, e, r) == raw_scale(m, e, r),
        forall|i: int, j: int|
            0 <= i <= m.rows() && 0 <= j <= m.cols() ==> #[trigger] pivot_model(m, e, r).entry(i, j)
                * pivot_gcd(m, e, r) == raw_entry(m, e, r, i, j),
{
    let g = pivot_gcd(m, e, r) as int;
    lemma_rows_gcd(m, e, r, m.rows() + 1);
    lemma_raw_scale_positive(m, e, r);
    lemma_pivot_model_entries(m, e, r);
    lemma_divides_exact(g, raw_scale(m, e, r));
    assert(raw_scale(m, e, r) / g > 0) by (nonlinear_arith)
        requires
            raw_scale(m, e, r) == g * (raw_scale(m, e, r) / g),
            raw_scale(m, e, r) > 0,
            g > 0,
    ;
    assert forall|i: int, j: int| 0 <= i <= m.rows() && 0 <= j <= m.cols() implies #[trigger] pivot_model(
        m,
        e,
        r,
    ).entry(i, j) * pivot_gcd(m, e, r) == raw_entry(m, e, r, i, j) by {
        lemma_divides_exact(g, raw_entry(m, e, r, i, j));
    }
}

/// Whatever divides the divisor that a row started from and every raw
/// numerator that the row has met divides the divisor built up along the row.
pub proof fn lemma_row_gcd_greatest(m: TableauModel, e: int, r: int, i: int, j: nat, acc: nat, k: int)
    requires
        acc > 0,
        divides(k, acc as int),
        forall|q: int| 0 <= q < j ==> divides(k, #[trigger] raw_entry(m, e, r, i, q)),
    ensures
        divides(k, row_gcd(m, e, r, i, j, acc) as int),
    decreases j,
{
    if j > 0 {
        let before = row_gcd(m, e, r, i, (j - 1) as nat, acc);
        let x = raw_entry(m, e, r, i, j - 1);
        lemma_row_gcd_greatest(m, e, r, i, (j - 1) as nat, acc, k);
        lemma_row_gcd(m, e, r, i, (j - 1) as nat, acc);
        assert(divides(k, x));
        lemma_divides_magnitude(k, x);
        lemma_gcd_greatest(before, magnitude(x), k);
    }
}

/// Whatever divides the raw denominator and every raw numerator of the first
/// `i` rows divides the divisor built up over these rows.
pub proof fn lemma_rows_gcd_greatest(m: TableauModel, e: int, r: int, i: nat, k: int)
    requires
        m.wf(),
        pivot_defined(m, e, r),
        divides(k, raw_scale(m, e, r)),
        forall|p: int, q: int|
            0 <= p < i && 0 <= q <= m.cols() ==> divides(k, #[trigger] raw_entry(m, e, r, p, q)),
    ensures
        divides(k, rows_gcd(m, e, r, i) as int),
    decreases i,
{
    lemma_raw_scale_positive(m, e, r);
    if i > 0 {
        lemma_rows_gcd_greatest(m, e, r, (i - 1) as nat, k);
        lemma_rows_gcd(m, e, r, (i - 1) as nat);
        lemma_row_gcd_greatest(m, e, r, i - 1, m.cols() + 1, rows_gcd(m, e, r, (i - 1) as nat), k);
    }
}

/// `k` divides the denominator and every numerator of the tableau.
pub open spec fn common_divisor(m: TableauModel, k: int) -> bool {
    &&& divides(k, m.d)
    &&& forall|i: int, j: int|
        0 <= i <= m.rows() && 0 <= j <= m.cols() ==> divides(k, #[trigger] m.entry(i, j))
}

/// The tableau is in lowest terms: the only positive number that divides its
/// denominator and every one of its numerators is one.
pub open spec fn lowest_terms(m: TableauModel) -> bool {
    forall|k: int| #[trigger] common_divisor(m, k) ==> k == 1
}

/// The pivoted tableau is in lowest terms.
pub proof fn lemma_pivot_lowest_terms(m: TableauModel, e: int, r: int)
    requires
        m.wf(),
        pivot_defined(m, e, r),
    ensures
        lowest_terms(pivot_model(m, e, r)),
{
    let n = pivot_model(m, e, r);
    let g = pivot_gcd(m, e, r) as int;
    lemma_pivot_exact(m, e, r);
    lemma_pivot_model_entries(m, e, r);
    assert forall|k: int| #[trigger] common_divisor(n, k) implies k == 1 by {
        lemma_divides_scaled(k, g, n.d);
        assert forall|i: int, j: int| 0 <= i <= m.rows() && 0 <= j <= m.cols() implies divides(
            k * g,
            #[trigger] raw_entry(m, e, r, i, j),
        ) by {
            assert(divides(k, n.entry(i, j)));
            lemma_divides_scaled(k, g, n.entry(i, j));
        }
        lemma_rows_gcd_greatest(m, e, r, m.rows() + 1, k * g);
        lemma_divides_exact(k * g, g);
        let t = g / (k * g);
        assert(g * 1 == g * (k * t)) by (nonlinear_arith)
            requires
                g == (k * g) * t,
        ;
        lemma_cancel(g, 1, k * t);
        assert(k == 1) by (nonlinear_arith)
            requires
                k * t == 1,
                k > 0,
        ;
    }
}

/// What a pivot on row `r` and column `e` reports.
pub open spec fn pivot_outcome(m: TableauModel, e: int, r: int) -> Result<(), SolveError> {
    if m.a[r][e] == 0 {
        Err(SolveError::ZeroPivot)
    } else if !pivot_fits(m, e, r) {
        Err(SolveError::Overflow)
    } else {
        Ok(())
    }
}

/// The tableau that a pivot on row `r` and column `e` leaves behind: the
/// pivoted tableau where the pivot succeeds, the tableau as it was where it
/// fails.
pub open spec fn pivot_result(m: TableauModel, e: int, r: int) -> TableauModel {
    if pivot_outcome(m, e, r) is Ok {
        pivot_model(m, e, r)
    } else {
        m
    }
}

/// Column `e` of the constraint matrix is the unit column of row `r`: its
/// element in row `r` is one (the numerator equals the denominator) and its
/// other elements are zero.
pub open spec fn is_unit_column(m: TableauModel, e: int, r: int) -> bool {
    &&& 0 <= e < m.cols()
    &&& 0 <= r < m.rows()
    &&& forall|i: int| 0 <= i < m.rows() ==> #[trigger] m.a[i][e] == (if i == r { m.d } else { 0 })
}

/// After a pivot on row `r` and column `e`, column `e` is the unit column of
/// row `r`, and the objective coefficient of column `e` is zero.
pub proof fn lemma_pivot_unit_column(m: TableauModel, e: int, r: int)
    requires
        m.wf(),
        pivot_defined(m, e, r),
    ensures
        is_unit_column(pivot_model(m, e, r), e, r),
        pivot_model(m, e, r).c[e] == 0,
{
    let n = pivot_model(m, e, r);
    let g = pivot_gcd(m, e, r) as int;
    let p = m.a[r][e];
    lemma_pivot_model_entries(m, e, r);
    lemma_pivot_exact(m, e, r);
    assert(signum(p) * (p * m.d) == m.d * magnitude(p)) by (nonlinear_arith)
        requires
            p != 0,
    ;
    assert forall|i: int| 0 <= i <= m.rows() && i != r implies raw_entry(m, e, r, i, e) == 0 by {
        assert(signum(p) * (m.entry(i, e) * p - m.entry(i, e) * m.entry(r, e)) == 0) by (nonlinear_arith)
            requires
                m.entry(r, e) == p,
        ;
    }
    assert forall|i: int| 0 <= i < m.rows() implies #[trigger] n.a[i][e] == (if i == r {
        n.d
    } else {
        0
    }) by {
        assert(n.entry(i, e) == raw_entry(m, e, r, i, e) / g);
        if i == r {
            assert(m.entry(r, e) == p);
            assert(raw_entry(m, e, r, r, e) == raw_scale(m, e, r));
        } else {
            assert(raw_entry(m, e, r, i, e) == 0);
            assert(0int / g == 0) by (nonlinear_arith)
                requires
                    g > 0,
            ;
        }
    }
    assert(n.c[e] == 0) by {
        assert(n.entry(m.rows() as int, e) == raw_entry(m, e, r, m.rows() as int, e) / g);
        assert(raw_entry(m, e, r, m.rows() as int, e) == 0);
        assert(0int / g == 0) by (nonlinear_arith)
            requires
                g > 0,
        ;
    }
}

/// The bound on the magnitude of a raw numerator.
pub const RAW_BOUND: i128 = 0x7fff_ffff_ffff_fffe_0000_0000_0000_0002;

/// The raw numerator at `(i, j)` for a pivot on row `r` and column `e`.
fn raw_at(t: &Tableau, e: usize, r: usize, i: usize, j: usize) -> (x: i128)
    requires
        t.wf(),
        pivot_defined(t@, e as int, r as int),
        i <= t@.rows(),
        j <= t@.cols(),
    ensures
        x == raw_entry(t@, e as int, r as int, i as int, j as int),
        -RAW_BOUND <= x <= RAW_BOUND,
{
    proof {
        t.lemma_wf();
    }
    let p = t.coefficient(r, e);
    let v: i128 = if i == r {
        numerator_product(t.entry(r, j), t.scale())
    } else {
        numerator_product(t.entry(i, j), p) - numerator_product(t.entry(i, e), t.entry(r, j))
    };
    if p < 0 {
        -v
    } else {
        v
    }
}

/// The raw denominator for a pivot on row `r` and column `e`.
fn raw_scale_of(t: &Tableau, e: usize, r: usize) -> (x: u128)
    requires
        t.wf(),
        pivot_defined(t@, e as int, r as int),
    ensures
        x == raw_scale(t@, e as int, r as int),
        0 < x <= RAW_BOUND,
{
    proof {
        t.lemma_wf();
        lemma_raw_scale_positive(t@, e as int, r as int);
    }
    let p = t.coefficient(r, e);
    let size: i64 = if p < 0 {
        -p
    } else {
        p
    };
    numerator_product(t.scale(), size) as u128
}

/// The greatest common divisor of the raw denominator and every raw
/// numerator.
fn pivot_divisor(t: &Tableau, e: usize, r: usize) -> (g: u128)
    requires
        t.wf(),
        pivot_defined(t@, e as int, r as int),
    ensures
        g == pivot_gcd(t@, e as int, r as int),
        g > 0,
{
    proof {
        t.lemma_wf();
        lemma_rows_gcd(t@, e as int, r as int, t@.rows() + 1);
    }
    let rows = t.rows();
    let columns = t.columns();
    let mut g: u128 = raw_scale_of(t, e, r);
    let mut i: usize = 0;
    while i <= rows
        invariant
            t.wf(),
            pivot_defined(t@, e as int, r as int),
            rows == t@.rows(),
            columns == t@.cols(),
            rows <= MAX_DIMENSION,
            columns <= MAX_DIMENSION,
            i <= rows + 1,
            g == rows_gcd(t@, e as int, r as int, i as nat),
        decreases rows + 1 - i,
    {
        let mut j: usize = 0;
        while j <= columns
            invariant
                t.wf(),
                pivot_defined(t@, e as int, r as int),
                rows == t@.rows(),
                columns == t@.cols(),
                rows <= MAX_DIMENSION,
                columns <= MAX_DIMENSION,
                i <= rows,
                j <= columns + 1,
                g == row_gcd(
                    t@,
                    e as int,
                    r as int,
                    i as int,
                    j as nat,
                    rows_gcd(t@, e as int, r as int, i as nat),
                ),
            decreases columns + 1 - j,
        {
            let x = raw_at(t, e, r, i, j);
            g = gcd_u128(g, magnitude_i128(x));
            j += 1;
        }
        i += 1;
    }
    g
}

/// Whether the pivoted tableau fits the machine representation, given the
/// divisor `g` by which the raw numbers are cancelled.
fn pivot_in_range(t: &Tableau, e: usize, r: usize, g: u128) -> (ok: bool)
    requires
        t.wf(),
        pivot_defined(t@, e as int, r as int),
        g == pivot_gcd(t@, e as int, r as int),
    ensures
        ok == pivot_fits(t@, e as int, r as int),
{
    let ghost m = t@;
    let ghost target = pivot_model(m, e as int, r as int);
    proof {
        t.lemma_wf();
        lemma_rows_gcd(m, e as int, r as int, m.rows() + 1);
        lemma_pivot_model_entries(m, e as int, r as int);
        lemma_pivot_exact(m, e as int, r as int);
    }
    let rows = t.rows();
    let columns = t.columns();
    let scale = raw_scale_of(t, e, r);
    if scale / g > MAX_MAGNITUDE as u128 {
        return false;
    }
    let mut i: usize = 0;
    while i <= rows
        invariant
            t.wf(),
            m == t@,
            m.wf(),
            rows <= MAX_DIMENSION,
            columns <= MAX_DIMENSION,
            target == pivot_model(m, e as int, r as int),
            pivot_defined(m, e as int, r as int),
            g == pivot_gcd(m, e as int, r as int),
            g > 0,
            rows == m.rows(),
            columns == m.cols(),
            i <= rows + 1,
            forall|p: int, q: int|
                0 <= p <= m.rows() && 0 <= q <= m.cols() ==> divides(
                    g as int,
                    #[trigger] raw_entry(m, e as int, r as int, p, q),
                ),
            forall|p: int, q: int|
                0 <= p <= m.rows() && 0 <= q <= m.cols() ==> #[trigger] target.entry(p, q) == raw_entry(
                    m,
                    e as int,
                    r as int,
                    p,
                    q,
                ) / (g as int),
            forall|p: int, q: int|
                0 <= p < i && 0 <= q <= columns ==> -MAX_MAGNITUDE <= #[trigger] target.entry(p, q)
                    <= MAX_MAGNITUDE,
        decreases rows + 1 - i,
    {
        let mut j: usize = 0;
        while j <= columns
            invariant
                t.wf(),
                m == t@,
                m.wf(),
                rows <= MAX_DIMENSION,
                columns <= MAX_DIMENSION,
                target == pivot_model(m, e as int, r as int),
                pivot_defined(m, e as int, r as int),
                g == pivot_gcd(m, e as int, r as int),
                g > 0,
                rows == m.rows(),
                columns == m.cols(),
                i <= rows,
                j <= columns + 1,
                forall|p: int, q: int|
                    0 <= p <= m.rows() && 0 <= q <= m.cols() ==> divides(
                        g as int,
                        #[trigger] raw_entry(m, e as int, r as int, p, q),
                    ),
                forall|p: int, q: int|
                    0 <= p <= m.rows() && 0 <= q <= m.cols() ==> #[trigger] target.entry(p, q)
                        == raw_entry(m, e as int, r as int, p, q) / (g as int),
                forall|p: int, q: int|
                    0 <= p < i && 0 <= q <= columns ==> -MAX_MAGNITUDE <= #[trigger] target.entry(p, q)
                        <= MAX_MAGNITUDE,
                forall|q: int|
                    0 <= q < j ==> -MAX_MAGNITUDE <= #[trigger] target.entry(i as int, q) <= MAX_MAGNITUDE,
            decreases columns + 1 - j,
        {
            let x = raw_at(t, e, r, i, j);
            assert(divides(g as int, raw_entry(m, e as int, r as int, i as int, j as int)));
            let q = exact_quotient(x, g);
            assert(q == target.entry(i as int, j as int));
            if q > MAX_MAGNITUDE as i128 || q < -(MAX_MAGNITUDE as i128) {
                return false;
            }
            j += 1;
        }
        i += 1;
    }
    true
}

/// The pivoted tableau, given the divisor `g` by which the raw numbers are
/// cancelled.
fn pivot_apply(t: &Tableau, e: usize, r: usize, g: u128) -> (next: Tableau)
    requires
        t.wf(),
        pivot_defined(t@, e as int, r as int),
        g == pivot_gcd(t@, e as int, r as int),
        pivot_fits(t@, e as int, r as int),
    ensures
        next.wf(),
        next@ == pivot_model(t@, e as int, r as int),
{
    let ghost m = t@;
    let ghost target = pivot_model(m, e as int, r as int);
    proof {
        t.lemma_wf();
        lemma_rows_gcd(m, e as int, r as int, m.rows() + 1);
        lemma_pivot_model_entries(m, e as int, r as int);
        lemma_pivot_exact(m, e as int, r as int);
    }
    let rows = t.rows();
    let columns = t.columns();
    let mut next = t.duplicate();
    proof {
        next.lemma_wf();
    }
    let mut i: usize = 0;
    while i <= rows
        invariant
            t.wf(),
            m == t@,
            m.wf(),
            rows <= MAX_DIMENSION,
            columns <= MAX_DIMENSION,
            target == pivot_model(m, e as int, r as int),
            target.in_range(),
            pivot_defined(m, e as int, r as int),
            g == pivot_gcd(m, e as int, r as int),
            g > 0,
            rows == m.rows(),
            columns == m.cols(),
            i <= rows + 1,
            next.wf(),
            next@.wf(),
            next@.rows() == rows,
            next@.cols() == columns,
            next@.d == m.d,
            forall|p: int, q: int|
                0 <= p <= m.rows() && 0 <= q <= m.cols() ==> divides(
                    g as int,
                    #[trigger] raw_entry(m, e as int, r as int, p, q),
                ),
            forall|p: int, q: int|
                0 <= p <= m.rows() && 0 <= q <= m.cols() ==> #[trigger] target.entry(p, q) == raw_entry(
                    m,
                    e as int,
                    r as int,
                    p,
                    q,
                ) / (g as int),
            forall|p: int, q: int|
                0 <= p < i && 0 <= q <= columns ==> #[trigger] next@.entry(p, q) == target.entry(p, q),
        decreases rows + 1 - i,
    {
        let mut j: usize = 0;
        while j <= columns
            invariant
                t.wf(),
                m == t@,
                m.wf(),
                rows <= MAX_DIMENSION,
                columns <= MAX_DIMENSION,
                target == pivot_model(m, e as int, r as int),
                target.in_range(),
                pivot_defined(m, e as int, r as int),
                g == pivot_gcd(m, e as int, r as int),
                g > 0,
                rows == m.rows(),
                columns == m.cols(),
                i <= rows,
                j <= columns + 1,
                next.wf(),
                next@.wf(),
                next@.rows() == rows,
                next@.cols() == columns,
                next@.d == m.d,
                forall|p: int, q: int|
                    0 <= p <= m.rows() && 0 <= q <= m.cols() ==> divides(
                        g as int,
                        #[trigger] raw_entry(m, e as int, r as int, p, q),
                    ),
                forall|p: int, q: int|
                    0 <= p <= m.rows() && 0 <= q <= m.cols() ==> #[trigger] target.entry(p, q)
                        == raw_entry(m, e as int, r as int, p, q) / (g as int),
                forall|p: int, q: int|
                    0 <= p < i && 0 <= q <= columns ==> #[trigger] next@.entry(p, q) == target.entry(p, q),
                forall|q: int|
                    0 <= q < j ==> #[trigger] next@.entry(i as int, q) == target.entry(i as int, q),
            decreases columns + 1 - j,
        {
            let x = raw_at(t, e, r, i, j);
            assert(divides(g as int, raw_entry(m, e as int, r as int, i as int, j as int)));
            let q = exact_quotient(x, g);
            assert(q == target.entry(i as int, j as int));
            assert(-MAX_MAGNITUDE <= target.entry(i as int, j as int) <= MAX_MAGNITUDE);
            let ghost before = next@;
            next.set_entry(i, j, q as i64);
            proof {
                lemma_with_entry(before, i as int, j as int, q as int);
            }
            j += 1;
        }
        i += 1;
    }
    let scale = raw_scale_of(t, e, r);
    let ghost before = next@;
    next.set_scale((scale / g) as i64);
    proof {
        assert forall|p: int, q: int| 0 <= p <= m.rows() && 0 <= q <= m.cols() implies #[trigger] next@.entry(
            p,
            q,
        ) == target.entry(p, q) by {
            assert(next@.entry(p, q) == before.entry(p, q));
        }
        lemma_model_extensional(next@, target);
    }
    next
}

/// Pivots the tableau on row `leaving_idx` and column `enter_idx`.
///
/// The pivot row is divided by the pivot element, so that the element itself
/// becomes one; from every other row, and from the objective row with the
/// objective constant, the new pivot row is subtracted as often as that row's
/// coefficient in the entering column says. The result is kept in lowest
/// terms. Where the pivot element is zero, or the result does not fit in 64
/// bits, the tableau is left as it was and the error says which.
pub fn pivot_coef(t: &mut Tableau, enter_idx: i32, leaving_idx: i32) -> (done: Result<(), SolveError>)
    requires
        old(t).wf(),
        0 <= enter_idx < old(t)@.cols(),
        0 <= leaving_idx < old(t)@.rows(),
    ensures
        final(t).wf(),
        done == pivot_outcome(old(t)@, enter_idx as int, leaving_idx as int),
        final(t)@ == pivot_result(old(t)@, enter_idx as int, leaving_idx as int),
        final(t)@.rows() == old(t)@.rows(),
        final(t)@.cols() == old(t)@.cols(),
        done is Ok ==> is_unit_column(final(t)@, enter_idx as int, leaving_idx as int),
        done is Ok ==> final(t)@.c[enter_idx as int] == 0,
        done is Ok ==> lowest_terms(final(t)@),
{
    let e = enter_idx as usize;
    let r = leaving_idx as usize;
    proof {
        t.lemma_wf();
    }
    if t.coefficient(r, e) == 0 {
        return Err(SolveError::ZeroPivot);
    }
    let g = pivot_divisor(t, e, r);
    if !pivot_in_range(t, e, r, g) {
        return Err(SolveError::Overflow);
    }
    let next = pivot_apply(t, e, r, g);
    proof {
        lemma_pivot_unit_column(t@, e as int, r as int);
        lemma_pivot_model_entries(t@, e as int, r as int);
        lemma_pivot_lowest_terms(t@, e as int, r as int);
    }
    *t = next;
    Ok(())
}

} // verus!

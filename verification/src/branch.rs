//! Branching: the choice of the variable to branch on, and the tableaux of
//! the two children of a node.

use vstd::prelude::*;
use vstd::arithmetic::div_mod::lemma_fundamental_div_mod;
use vstd::arithmetic::div_mod::lemma_fundamental_div_mod_converse;
use vstd::arithmetic::div_mod::lemma_mod_bound;
use crate::pivot::is_unit_column;
use crate::tableau::ints;
use crate::tableau::lemma_model_extensional;
use crate::tableau::lemma_with_entry;
use crate::tableau::Tableau;
use crate::tableau::TableauModel;
use crate::tableau::MAX_DIMENSION;
use crate::tableau::MAX_MAGNITUDE;

verus! {

/// The fractional part of the right-hand side of row `i`, as a numerator over
/// the denominator of the tableau: the value less its floor.
pub open spec fn fraction(m: TableauModel, i: int) -> int {
    m.b[i] % m.d
}

/// Every right-hand side of the tableau is an integer.
pub open spec fn all_integral(m: TableauModel) -> bool {
    forall|i: int| 0 <= i < m.rows() ==> #[trigger] fraction(m, i) == 0
}

/// `j` is the first of the first `n` columns that is the unit column of row
/// `i`.
pub open spec fn is_first_unit_column(m: TableauModel, n: int, i: int, j: int) -> bool {
    &&& 0 <= j < n
    &&& is_unit_column(m, j, i)
    &&& forall|k: int| 0 <= k < j ==> !#[trigger] is_unit_column(m, k, i)
}

/// The first of the first `n` columns that is the unit column of row `i`, or
/// `-1` where there is none.
pub open spec fn unit_column_of_row(m: TableauModel, n: int, i: int) -> int {
    if exists|j: int| is_first_unit_column(m, n, i, j) {
        choose|j: int| is_first_unit_column(m, n, i, j)
    } else {
        -1
    }
}

/// Row `i` can be branched on: its right-hand side is fractional and one of
/// the first `n` columns, the decision variables, is its unit column.
pub open spec fn branch_candidate(m: TableauModel, n: int, i: int) -> bool {
    &&& 0 <= i < m.rows()
    &&& fraction(m, i) != 0
    &&& unit_column_of_row(m, n, i) >= 0
}

/// Row `i` is the row to branch on: no candidate row has a smaller
/// fractional part, and every earlier candidate row has a larger one.
pub open spec fn is_branch_row(m: TableauModel, n: int, i: int) -> bool {
    &&& branch_candidate(m, n, i)
    &&& forall|k: int| #[trigger] branch_candidate(m, n, k) ==> fraction(m, i) <= fraction(m, k)
    &&& forall|k: int| #[trigger] branch_candidate(m, n, k) && k < i ==> fraction(m, i) < fraction(m, k)
}

/// The row to branch on, or `-1` where no row can be branched on.
pub open spec fn branch_row(m: TableauModel, n: int) -> int {
    if exists|i: int| is_branch_row(m, n, i) {
        choose|i: int| is_branch_row(m, n, i)
    } else {
        -1
    }
}

/// The variable to branch on, with the fractional part of its row: the unit
/// column of the row to branch on, or `(-1, 0)` where no row can be branched
/// on.
pub open spec fn branch_choice(m: TableauModel, n: int) -> (int, int) {
    let i = branch_row(m, n);
    if i >= 0 {
        (unit_column_of_row(m, n, i), fraction(m, i))
    } else {
        (-1, 0)
    }
}

/// A column is the unit column of at most one row.
pub proof fn lemma_unit_row_unique(m: TableauModel, j: int, r: int, i: int)
    requires
        m.wf(),
        is_unit_column(m, j, r),
        is_unit_column(m, j, i),
    ensures
        r == i,
{
    if r != i {
        assert(m.a[r][j] == m.d);
        assert(m.a[r][j] == 0);
    }
}

/// No row has two first unit columns.
pub proof fn lemma_first_unit_column_unique(m: TableauModel, n: int, i: int, j: int)
    requires
        is_first_unit_column(m, n, i, j),
    ensures
        unit_column_of_row(m, n, i) == j,
{
    let other = unit_column_of_row(m, n, i);
    assert(is_first_unit_column(m, n, i, other));
    if other < j {
        assert(!is_unit_column(m, other, i));
    } else if j < other {
        assert(!is_unit_column(m, j, i));
    }
}

/// No tableau has two rows to branch on.
pub proof fn lemma_branch_row_unique(m: TableauModel, n: int, i: int)
    requires
        is_branch_row(m, n, i),
    ensures
        branch_row(m, n) == i,
{
    let other = branch_row(m, n);
    assert(is_branch_row(m, n, other));
    assert(branch_candidate(m, n, other));
    assert(branch_candidate(m, n, i));
    if other < i {
        assert(fraction(m, i) < fraction(m, other));
        assert(fraction(m, other) <= fraction(m, i));
    } else if i < other {
        assert(fraction(m, other) < fraction(m, i));
        assert(fraction(m, i) <= fraction(m, other));
    }
}

/// The fractional part of `value / scale`, as a numerator over `scale`.
pub fn fraction_of(value: i64, scale: i64) -> (f: i64)
    requires
        scale > 0,
        value >= -MAX_MAGNITUDE,
    ensures
        f == (value as int) % (scale as int),
        0 <= f < scale,
{
    proof {
        lemma_mod_bound(value as int, scale as int);
    }
    if value >= 0 {
        value % scale
    } else {
        let rest = (-value) % scale;
        proof {
            let q = (-(value as int)) / (scale as int);
            lemma_fundamental_div_mod(-(value as int), scale as int);
            lemma_mod_bound(-(value as int), scale as int);
            if rest == 0 {
                assert(value as int == (-q) * (scale as int) + 0) by (nonlinear_arith)
                    requires
                        -(value as int) == (scale as int) * q + 0,
                ;
                lemma_fundamental_div_mod_converse(value as int, scale as int, -q, 0);
            } else {
                assert(value as int == (-q - 1) * (scale as int) + (scale - rest)) by (nonlinear_arith)
                    requires
                        -(value as int) == (scale as int) * q + rest,
                ;
                lemma_fundamental_div_mod_converse(value as int, scale as int, -q - 1, scale - rest);
            }
        }
        if rest == 0 {
            0
        } else {
            scale - rest
        }
    }
}

/// Whether every right-hand side is an integer.
pub fn is_all_integral(t: &Tableau) -> (yes: bool)
    requires
        t.wf(),
    ensures
        yes == all_integral(t@),
{
    proof {
        t.lemma_wf();
    }
    let rows = t.rows();
    let scale = t.scale();
    let mut i: usize = 0;
    while i < rows
        invariant
            t.wf(),
            rows == t@.rows(),
            scale == t@.d,
            scale > 0,
            i <= rows,
            forall|k: int| 0 <= k < i ==> #[trigger] fraction(t@, k) == 0,
        decreases rows - i,
    {
        if fraction_of(t.rhs(i), scale) != 0 {
            assert(fraction(t@, i as int) != 0);
            return false;
        }
        i += 1;
    }
    true
}

/// The row of which column `j` is the unit column, or `-1` where it is the
/// unit column of no row.
pub fn unit_row_of(t: &Tableau, j: usize) -> (row: i32)
    requires
        t.wf(),
        j < t@.cols(),
    ensures
        -1 <= row < t@.rows(),
        row >= 0 ==> is_unit_column(t@, j as int, row as int),
        row == -1 ==> forall|i: int| !#[trigger] is_unit_column(t@, j as int, i),
{
    proof {
        t.lemma_wf();
    }
    let rows = t.rows();
    let scale = t.scale();
    let mut found: i32 = -1;
    let mut i: usize = 0;
    while i < rows
        invariant
            t.wf(),
            t@.wf(),
            j < t@.cols(),
            rows == t@.rows(),
            rows <= MAX_DIMENSION,
            scale == t@.d,
            scale > 0,
            i <= rows,
            -1 <= found < i,
            found == -1 ==> forall|k: int| 0 <= k < i ==> #[trigger] t@.a[k][j as int] == 0,
            found >= 0 ==> forall|k: int|
                0 <= k < i ==> #[trigger] t@.a[k][j as int] == (if k == found {
                    t@.d
                } else {
                    0
                }),
        decreases rows - i,
    {
        let v = t.coefficient(i, j);
        if v == scale {
            if found >= 0 {
                assert forall|r: int| !#[trigger] is_unit_column(t@, j as int, r) by {
                    if is_unit_column(t@, j as int, r) {
                        assert(t@.a[found as int][j as int] == t@.d);
                        assert(t@.a[i as int][j as int] == t@.d);
                    }
                }
                return -1;
            }
            found = i as i32;
        } else if v != 0 {
            assert forall|r: int| !#[trigger] is_unit_column(t@, j as int, r) by {
                if is_unit_column(t@, j as int, r) {
                    assert(t@.a[i as int][j as int] == (if i == r {
                        t@.d
                    } else {
                        0
                    }));
                }
            }
            return -1;
        }
        i += 1;
    }
    proof {
        if found == -1 {
            assert forall|r: int| !#[trigger] is_unit_column(t@, j as int, r) by {
                if is_unit_column(t@, j as int, r) {
                    assert(t@.a[r][j as int] == t@.d);
                }
            }
        }
    }
    found
}

/// For each of the first `n` columns, the row of which it is the unit column
/// or `-1`.
fn unit_rows(t: &Tableau, n: usize) -> (rows: Vec<i32>)
    requires
        t.wf(),
        n <= t@.cols(),
    ensures
        rows@.len() == n,
        forall|j: int|
            0 <= j < n ==> -1 <= #[trigger] rows@[j] && (rows@[j] >= 0 ==> is_unit_column(
                t@,
                j,
                rows@[j] as int,
            )) && (rows@[j] == -1 ==> forall|r: int| !is_unit_column(t@, j, r)),
{
    proof {
        t.lemma_wf();
    }
    let mut rows: Vec<i32> = Vec::new();
    let mut j: usize = 0;
    while j < n
        invariant
            t.wf(),
            t@.wf(),
            n <= t@.cols(),
            j <= n,
            rows@.len() == j,
            forall|k: int|
                0 <= k < j ==> -1 <= #[trigger] rows@[k] && (rows@[k] >= 0 ==> is_unit_column(
                    t@,
                    k,
                    rows@[k] as int,
                )) && (rows@[k] == -1 ==> forall|r: int| !is_unit_column(t@, k, r)),
        decreases n - j,
    {
        rows.push(unit_row_of(t, j));
        j += 1;
    }
    rows
}

/// The first position of `rows` that holds `row`, or `-1`.
fn first_position(rows: &Vec<i32>, row: i32) -> (found: i32)
    requires
        rows@.len() <= MAX_DIMENSION,
    ensures
        -1 <= found < rows@.len(),
        found >= 0 ==> rows@[found as int] == row && forall|k: int| 0 <= k < found ==> rows@[k] != row,
        found == -1 ==> forall|k: int| 0 <= k < rows@.len() ==> rows@[k] != row,
{
    let mut j: usize = 0;
    while j < rows.len()
        invariant
            rows@.len() <= MAX_DIMENSION,
            j <= rows@.len(),
            forall|k: int| 0 <= k < j ==> rows@[k] != row,
        decreases rows@.len() - j,
    {
        if rows[j] == row {
            return j as i32;
        }
        j += 1;
    }
    -1
}

/// Chooses the variable to branch on among the first `var_count` columns, the
/// decision variables.
///
/// A row can be branched on where its right-hand side is fractional and a
/// decision column is its unit column. Of these rows the one with the
/// smallest fractional part is taken, the first of them where several are
/// equal. Returns the first decision column that is the unit column of that
/// row, with the fractional part of the row as a numerator over the
/// denominator of the tableau, or `(-1, 0)` where no row can be branched on.
pub fn get_branch_var(var_count: i32, t: &Tableau) -> (choice: (i32, i64))
    requires
        t.wf(),
        0 <= var_count <= t@.cols(),
    ensures
        (choice.0 as int, choice.1 as int) == branch_choice(t@, var_count as int),
        -1 <= choice.0 < var_count,
        choice.0 >= 0 ==> 0 < choice.1 < t@.d && is_branch_row(
            t@,
            var_count as int,
            branch_row(t@, var_count as int),
        ) && is_unit_column(t@, choice.0 as int, branch_row(t@, var_count as int)),
        choice.0 == -1 ==> forall|i: int| !#[trigger] branch_candidate(t@, var_count as int, i),
{
    proof {
        t.lemma_wf();
    }
    let ghost m = t@;
    let ghost n = var_count as int;
    let rows = t.rows();
    let scale = t.scale();
    let basic = unit_rows(t, var_count as usize);
    let mut best_col: i32 = -1;
    let mut best_frac: i64 = 0;
    let ghost mut best_row: int = -1;
    let mut i: usize = 0;
    while i < rows
        invariant
            t.wf(),
            m == t@,
            m.wf(),
            n == var_count,
            0 <= n <= m.cols(),
            rows == m.rows(),
            rows <= MAX_DIMENSION,
            scale == m.d,
            scale > 0,
            basic@.len() == n,
            forall|j: int|
                0 <= j < n ==> -1 <= #[trigger] basic@[j] && (basic@[j] >= 0 ==> is_unit_column(
                    m,
                    j,
                    basic@[j] as int,
                )) && (basic@[j] == -1 ==> forall|r: int| !is_unit_column(m, j, r)),
            i <= rows,
            -1 <= best_col < n,
            best_col == -1 ==> best_row == -1 && best_frac == 0 && forall|k: int|
                0 <= k < i ==> !#[trigger] branch_candidate(m, n, k),
            best_col >= 0 ==> 0 <= best_row < i && branch_candidate(m, n, best_row) && best_col
                == unit_column_of_row(m, n, best_row) && best_frac == fraction(m, best_row),
            best_col >= 0 ==> forall|k: int| #[trigger]
                branch_candidate(m, n, k) && k < i ==> best_frac <= fraction(m, k),
            best_col >= 0 ==> forall|k: int| #[trigger]
                branch_candidate(m, n, k) && k < best_row ==> best_frac < fraction(m, k),
        decreases rows - i,
    {
        let f = fraction_of(t.rhs(i), scale);
        assert(f == fraction(m, i as int));
        let column = first_position(&basic, i as i32);
        proof {
            if column >= 0 {
                assert(is_unit_column(m, column as int, i as int));
                assert forall|k: int| 0 <= k < column implies !#[trigger] is_unit_column(m, k, i as int) by {
                    if is_unit_column(m, k, i as int) {
                        assert(basic@[k] >= 0);
                        lemma_unit_row_unique(m, k, basic@[k] as int, i as int);
                    }
                }
                assert(is_first_unit_column(m, n, i as int, column as int));
                lemma_first_unit_column_unique(m, n, i as int, column as int);
            } else {
                assert forall|j: int| !is_first_unit_column(m, n, i as int, j) by {
                    if is_first_unit_column(m, n, i as int, j) {
                        assert(basic@[j] >= 0);
                        lemma_unit_row_unique(m, j, basic@[j] as int, i as int);
                    }
                }
                assert(unit_column_of_row(m, n, i as int) == -1);
            }
        }
        if f != 0 && column >= 0 {
            assert(branch_candidate(m, n, i as int));
            if best_col == -1 || f < best_frac {
                best_col = column;
                best_frac = f;
                proof {
                    best_row = i as int;
                }
            }
        } else {
            assert(!branch_candidate(m, n, i as int));
        }
        i += 1;
    }
    proof {
        if best_col >= 0 {
            assert(is_branch_row(m, n, best_row));
            lemma_branch_row_unique(m, n, best_row);
            assert(is_first_unit_column(m, n, best_row, unit_column_of_row(m, n, best_row)));
            lemma_mod_bound(m.b[best_row], m.d);
        } else {
            assert forall|i: int| !#[trigger] branch_candidate(m, n, i) by {}
            assert(branch_row(m, n) == -1);
        }
    }
    (best_col, best_frac)
}

/// `i` is the first row whose coefficient in column `k` is one.
pub open spec fn is_first_one_row(m: TableauModel, k: int, i: int) -> bool {
    &&& 0 <= i < m.rows()
    &&& m.a[i][k] == m.d
    &&& forall|q: int| 0 <= q < i ==> #[trigger] m.a[q][k] != m.d
}

/// The first row whose coefficient in column `k` is one, or `-1` where there
/// is none.
pub open spec fn first_one_row(m: TableauModel, k: int) -> int {
    if exists|i: int| is_first_one_row(m, k, i) {
        choose|i: int| is_first_one_row(m, k, i)
    } else {
        -1
    }
}

/// No column has two first rows with a one.
pub proof fn lemma_first_one_row_unique(m: TableauModel, k: int, i: int)
    requires
        is_first_one_row(m, k, i),
    ensures
        first_one_row(m, k) == i,
{
    let other = first_one_row(m, k);
    assert(is_first_one_row(m, k, other));
    if other < i {
        assert(m.a[other][k] != m.d);
    } else if i < other {
        assert(m.a[i][k] != m.d);
    }
}

/// The coefficient in column `j` of the row that a branch on column `k`
/// adds, where `r` is the row that holds the variable and column `cols()` is
/// the new slack or surplus variable.
///
/// For the bound `variable <= floor` (`upper`), the row `variable + slack ==
/// floor` less row `r`; for the bound `variable >= ceil`, row `r` less the
/// row `variable - surplus == ceil`.
pub open spec fn bound_coefficient(m: TableauModel, k: int, r: int, upper: bool, j: int) -> int {
    let held = if j < m.cols() {
        m.a[r][j]
    } else {
        0
    };
    if upper {
        (if j == k || j == m.cols() {
            m.d
        } else {
            0
        }) - held
    } else {
        held - (if j == k {
            m.d
        } else if j == m.cols() {
            -m.d
        } else {
            0
        })
    }
}

/// The right-hand side of the row that a branch adds, for the fractional part
/// `f` of the branched variable: `-f` for the bound `variable <= floor`,
/// `f - 1` for the bound `variable >= ceil`.
pub open spec fn bound_rhs(m: TableauModel, f: int, upper: bool) -> int {
    if upper {
        -f
    } else {
        f - m.d
    }
}

/// The tableau of a child: the parent's tableau with one more column, zero in
/// every row of the parent and in the objective row, and one more row, which
/// bounds the variable of column `k`.
pub open spec fn child_tableau(m: TableauModel, k: int, f: int, upper: bool) -> TableauModel {
    let r = first_one_row(m, k);
    let wide = m.extended();
    TableauModel {
        a: wide.a.update(
            m.rows() as int,
            Seq::new(m.cols() + 1, |j: int| bound_coefficient(m, k, r, upper, j)),
        ),
        b: wide.b.update(m.rows() as int, bound_rhs(m, f, upper)),
        ..wide
    }
}

/// A branch on column `k` with the fractional part `f` can be built: some
/// row holds a one in column `k`, `f` is a fractional part, and there is room
/// for one more row and column.
pub open spec fn can_branch(m: TableauModel, k: int, f: int) -> bool {
    &&& 0 <= k < m.cols()
    &&& first_one_row(m, k) >= 0
    &&& 0 <= f < m.d
    &&& m.rows() < MAX_DIMENSION
    &&& m.cols() < MAX_DIMENSION
}

/// The first row whose coefficient in column `k` is one, or `-1`.
pub fn find_one_row(t: &Tableau, k: usize) -> (row: i32)
    requires
        t.wf(),
        k < t@.cols(),
    ensures
        row == first_one_row(t@, k as int),
        -1 <= row < t@.rows(),
        row >= 0 ==> is_first_one_row(t@, k as int, row as int),
{
    proof {
        t.lemma_wf();
    }
    let rows = t.rows();
    let scale = t.scale();
    let mut i: usize = 0;
    while i < rows
        invariant
            t.wf(),
            k < t@.cols(),
            rows == t@.rows(),
            rows <= MAX_DIMENSION,
            scale == t@.d,
            i <= rows,
            forall|q: int| 0 <= q < i ==> #[trigger] t@.a[q][k as int] != t@.d,
        decreases rows - i,
    {
        if t.coefficient(i, k) == scale {
            proof {
                lemma_first_one_row_unique(t@, k as int, i as int);
            }
            return i as i32;
        }
        i += 1;
    }
    proof {
        assert forall|i: int| !is_first_one_row(t@, k as int, i) by {
            if is_first_one_row(t@, k as int, i) {
                assert(t@.a[i][k as int] != t@.d);
            }
        }
    }
    -1
}

/// Builds the tableau of a child of `t`: the branch on the variable of column
/// `k`, whose row has the fractional part `f / scale`, with the bound
/// `variable <= floor` where `upper` holds and `variable >= ceil` otherwise.
pub fn build_child(t: &Tableau, k: usize, f: i64, upper: bool) -> (child: Tableau)
    requires
        t.wf(),
        can_branch(t@, k as int, f as int),
    ensures
        child.wf(),
        child@ == child_tableau(t@, k as int, f as int, upper),
{
    proof {
        t.lemma_wf();
    }
    let ghost m = t@;
    let ghost target = child_tableau(m, k as int, f as int, upper);
    let rows = t.rows();
    let columns = t.columns();
    let scale = t.scale();
    let r = find_one_row(t, k) as usize;
    let held = t.constraint_row(r);
    let mut child = t.extended();
    proof {
        child.lemma_wf();
        assert(ints(held@)[k as int] == held@[k as int]);
    }
    let mut j: usize = 0;
    while j <= columns
        invariant
            t.wf(),
            m == t@,
            m.wf(),
            can_branch(m, k as int, f as int),
            rows == m.rows(),
            columns == m.cols(),
            scale == m.d,
            r == first_one_row(m, k as int),
            ints(held@) == m.a[r as int],
            held@.len() == columns,
            held@[k as int] == scale,
            forall|q: int| 0 <= q < held@.len() ==> -MAX_MAGNITUDE <= #[trigger] held@[q] <= MAX_MAGNITUDE,
            j <= columns + 1,
            child.wf(),
            child@.wf(),
            child@.rows() == rows + 1,
            child@.cols() == columns + 1,
            child@.d == m.d,
            forall|p: int, q: int|
                0 <= p <= rows + 1 && 0 <= q <= columns + 1 && p != rows ==> #[trigger] child@.entry(p, q)
                    == m.extended().entry(p, q),
            child@.entry(rows as int, columns + 1) == 0,
            forall|q: int|
                0 <= q < j ==> #[trigger] child@.entry(rows as int, q) == bound_coefficient(
                    m,
                    k as int,
                    r as int,
                    upper,
                    q,
                ),
        decreases columns + 1 - j,
    {
        let old_value: i64 = if j < columns {
            held[j]
        } else {
            0
        };
        proof {
            if j < columns {
                assert(ints(held@)[j as int] == held@[j as int]);
            }
        }
        let value: i64 = if upper {
            if j == k {
                0
            } else if j == columns {
                scale
            } else {
                -old_value
            }
        } else {
            if j == k {
                0
            } else if j == columns {
                scale
            } else {
                old_value
            }
        };
        assert(value == bound_coefficient(m, k as int, r as int, upper, j as int));
        let ghost before = child@;
        child.set_entry(rows, j, value);
        proof {
            lemma_with_entry(before, rows as int, j as int, value as int);
        }
        j += 1;
    }
    let bound: i64 = if upper {
        -f
    } else {
        f - scale
    };
    let ghost before = child@;
    child.set_entry(rows, columns + 1, bound);
    proof {
        lemma_with_entry(before, rows as int, columns + 1, bound as int);
        assert(target.wf());
        assert forall|p: int, q: int| 0 <= p <= rows + 1 && 0 <= q <= columns + 1 implies #[trigger] child@.entry(
            p,
            q,
        ) == target.entry(p, q) by {
            if p != rows {
                assert(before.entry(p, q) == m.extended().entry(p, q));
            } else if q <= columns {
                assert(before.entry(p, q) == bound_coefficient(m, k as int, r as int, upper, q));
            }
        }
        lemma_model_extensional(child@, target);
    }
    child
}

} // verus!

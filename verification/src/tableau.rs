//! The simplex tableau: constraint coefficients, right-hand sides, objective
//! row and objective constant, all as exact rationals over one denominator.

use vstd::prelude::*;
use crate::grid::Grid;
use crate::grid::dense_cells;
use crate::grid::dense_columns;
use crate::grid::dense_get;
use crate::grid::dense_rows;
use crate::grid::grid_cells;
use crate::grid::grid_clone;
use crate::grid::grid_column_count;
use crate::grid::grid_columns;
use crate::grid::grid_get;
use crate::grid::grid_resize;
use crate::grid::positions;
use crate::grid::grid_row_count;
use crate::grid::grid_rows;
use crate::grid::grid_set;
use crate::grid::grid_to_dense;
use crate::grid::grid_zero;

verus! {

/// The largest number of rows or columns of a tableau: every index then fits
/// in an `i32`, the type in which rows and columns are named.
pub const MAX_DIMENSION: usize = 0x7fff_ffff;

/// The largest magnitude of a numerator or of the denominator.
pub const MAX_MAGNITUDE: i64 = 0x7fff_ffff_ffff_ffff;

/// The integers that a sequence of machine integers holds.
pub open spec fn ints(s: Seq<i64>) -> Seq<int> {
    Seq::new(s.len(), |i: int| s[i] as int)
}

/// The mathematical content of a tableau.
///
/// Row `i` of the constraint system reads `sum_j (a[i][j] / d) * x_j == b[i] / d`,
/// the objective row holds the coefficients `c[j] / d`, and the objective
/// constant is `z / d`.
pub struct TableauModel {
    /// Numerators of the constraint coefficients, one sequence per row.
    pub a: Seq<Seq<int>>,
    /// Numerators of the right-hand sides, one per row.
    pub b: Seq<int>,
    /// Numerators of the objective row, one per column.
    pub c: Seq<int>,
    /// Numerator of the objective constant.
    pub z: int,
    /// The denominator shared by every numerator.
    pub d: int,
}

impl TableauModel {
    /// The number of constraint rows.
    pub open spec fn rows(self) -> nat {
        self.b.len()
    }

    /// The number of columns (variables).
    pub open spec fn cols(self) -> nat {
        self.c.len()
    }

    /// The parts agree in size and the denominator is positive.
    pub open spec fn wf(self) -> bool {
        &&& self.a.len() == self.b.len()
        &&& forall|i: int| 0 <= i < self.a.len() ==> (#[trigger] self.a[i]).len() == self.c.len()
        &&& self.d > 0
    }

    /// The numerator at position `(i, j)` of the tableau with the right-hand
    /// side as one more column and the objective as one more row: row
    /// `rows()` is the objective row, column `cols()` holds the right-hand
    /// sides and the objective constant.
    pub open spec fn entry(self, i: int, j: int) -> int {
        if i < self.rows() {
            if j < self.cols() {
                self.a[i][j]
            } else {
                self.b[i]
            }
        } else {
            if j < self.cols() {
                self.c[j]
            } else {
                self.z
            }
        }
    }

    /// The model with the numerator at `(i, j)` replaced by `v`.
    pub open spec fn with_entry(self, i: int, j: int, v: int) -> TableauModel {
        if i < self.rows() {
            if j < self.cols() {
                TableauModel { a: self.a.update(i, self.a[i].update(j, v)), ..self }
            } else {
                TableauModel { b: self.b.update(i, v), ..self }
            }
        } else {
            if j < self.cols() {
                TableauModel { c: self.c.update(j, v), ..self }
            } else {
                TableauModel { z: v, ..self }
            }
        }
    }

    /// Every numerator and the denominator fit the machine representation,
    /// and so do the dimensions.
    pub open spec fn in_range(self) -> bool {
        &&& self.rows() <= MAX_DIMENSION
        &&& self.cols() <= MAX_DIMENSION
        &&& self.d <= MAX_MAGNITUDE
        &&& forall|i: int, j: int|
            0 <= i <= self.rows() && 0 <= j <= self.cols() ==> -MAX_MAGNITUDE <= #[trigger] self.entry(
                i,
                j,
            ) <= MAX_MAGNITUDE
    }

    /// Column `j` of the constraint coefficients, from the first row down.
    pub open spec fn column(self, j: int) -> Seq<int> {
        Seq::new(self.rows(), |i: int| self.a[i][j])
    }

    /// The tableau with one more row and one more column, both zero.
    pub open spec fn extended(self) -> TableauModel {
        TableauModel {
            a: Seq::new(
                self.rows() + 1,
                |i: int|
                    Seq::new(
                        self.cols() + 1,
                        |j: int|
                            if i < self.rows() && j < self.cols() {
                                self.a[i][j]
                            } else {
                                0
                            },
                    ),
            ),
            b: Seq::new(
                self.rows() + 1,
                |i: int|
                    if i < self.rows() {
                        self.b[i]
                    } else {
                        0
                    },
            ),
            c: Seq::new(
                self.cols() + 1,
                |j: int|
                    if j < self.cols() {
                        self.c[j]
                    } else {
                        0
                    },
            ),
            z: self.z,
            d: self.d,
        }
    }

    /// The tableau of the given size whose numerators are all zero.
    pub open spec fn zero(rows: nat, cols: nat, d: int) -> TableauModel {
        TableauModel {
            a: Seq::new(rows, |i: int| Seq::new(cols, |j: int| 0int)),
            b: Seq::new(rows, |i: int| 0int),
            c: Seq::new(cols, |j: int| 0int),
            z: 0,
            d: d,
        }
    }
}

/// Replacing one numerator changes that position and no other, and keeps the
/// shape and the denominator.
pub proof fn lemma_with_entry(m: TableauModel, i: int, j: int, v: int)
    requires
        m.wf(),
        0 <= i <= m.rows(),
        0 <= j <= m.cols(),
    ensures
        m.with_entry(i, j, v).wf(),
        m.with_entry(i, j, v).rows() == m.rows(),
        m.with_entry(i, j, v).cols() == m.cols(),
        m.with_entry(i, j, v).d == m.d,
        forall|p: int, q: int|
            0 <= p <= m.rows() && 0 <= q <= m.cols() ==> #[trigger] m.with_entry(i, j, v).entry(p, q) == (if p
                == i && q == j {
                v
            } else {
                m.entry(p, q)
            }),
{
}

/// Two well-formed models of the same size are equal when they agree on the
/// denominator and on every numerator.
pub proof fn lemma_model_extensional(m: TableauModel, n: TableauModel)
    requires
        m.wf(),
        n.wf(),
        m.rows() == n.rows(),
        m.cols() == n.cols(),
        m.d == n.d,
        forall|i: int, j: int|
            0 <= i <= m.rows() && 0 <= j <= m.cols() ==> #[trigger] m.entry(i, j) == n.entry(i, j),
    ensures
        m == n,
{
    assert(m.z == n.z) by {
        assert(m.entry(m.rows() as int, m.cols() as int) == n.entry(m.rows() as int, m.cols() as int));
    }
    assert forall|i: int| 0 <= i < m.rows() implies m.b[i] == n.b[i] by {
        assert(m.entry(i, m.cols() as int) == n.entry(i, m.cols() as int));
    }
    assert forall|j: int| 0 <= j < m.cols() implies m.c[j] == n.c[j] by {
        assert(m.entry(m.rows() as int, j) == n.entry(m.rows() as int, j));
    }
    assert forall|i: int| 0 <= i < m.rows() implies m.a[i] =~= n.a[i] by {
        assert forall|j: int| 0 <= j < m.cols() implies m.a[i][j] == n.a[i][j] by {
            assert(m.entry(i, j) == n.entry(i, j));
        }
    }
    assert(m.a =~= n.a);
    assert(m.b =~= n.b);
    assert(m.c =~= n.c);
}

/// The parts of a tableau given as plain values describe a tableau: the sizes
/// agree and stay within [`MAX_DIMENSION`], the denominator is positive, and
/// no numerator is the least 64-bit integer.
pub open spec fn parts_valid(
    con: Seq<Vec<i64>>,
    rhs: Seq<i64>,
    obj: Seq<i64>,
    constant: i64,
    scale: i64,
) -> bool {
    &&& con.len() == rhs.len()
    &&& rhs.len() <= MAX_DIMENSION
    &&& obj.len() <= MAX_DIMENSION
    &&& scale > 0
    &&& constant >= -MAX_MAGNITUDE
    &&& forall|i: int| 0 <= i < con.len() ==> (#[trigger] con[i])@.len() == obj.len()
    &&& forall|i: int, j: int|
        0 <= i < con.len() && 0 <= j < con[i]@.len() ==> #[trigger] con[i]@[j] >= -MAX_MAGNITUDE
    &&& forall|i: int| 0 <= i < rhs.len() ==> #[trigger] rhs[i] >= -MAX_MAGNITUDE
    &&& forall|j: int| 0 <= j < obj.len() ==> #[trigger] obj[j] >= -MAX_MAGNITUDE
}

/// The tableau that the given parts describe.
pub open spec fn parts_model(
    con: Seq<Vec<i64>>,
    rhs: Seq<i64>,
    obj: Seq<i64>,
    constant: i64,
    scale: i64,
) -> TableauModel {
    TableauModel {
        a: Seq::new(rhs.len(), |i: int| Seq::new(obj.len(), |j: int| con[i]@[j] as int)),
        b: Seq::new(rhs.len(), |i: int| rhs[i] as int),
        c: Seq::new(obj.len(), |j: int| obj[j] as int),
        z: constant as int,
        d: scale as int,
    }
}

/// Whether every element of `row` is above the least 64-bit integer.
fn row_in_range(row: &Vec<i64>) -> (ok: bool)
    ensures
        ok == (forall|j: int| 0 <= j < row@.len() ==> #[trigger] row@[j] >= -MAX_MAGNITUDE),
{
    let mut j: usize = 0;
    while j < row.len()
        invariant
            j <= row@.len(),
            forall|k: int| 0 <= k < j ==> #[trigger] row@[k] >= -MAX_MAGNITUDE,
        decreases row@.len() - j,
    {
        if row[j] < -MAX_MAGNITUDE {
            return false;
        }
        j += 1;
    }
    true
}

/// Whether the given parts describe a tableau.
fn check_parts(con: &Vec<Vec<i64>>, rhs: &Vec<i64>, obj: &Vec<i64>, constant: i64, scale: i64) -> (ok:
    bool)
    ensures
        ok == parts_valid(con@, rhs@, obj@, constant, scale),
{
    if con.len() != rhs.len() || rhs.len() > MAX_DIMENSION || obj.len() > MAX_DIMENSION || scale
        <= 0 || constant < -MAX_MAGNITUDE {
        return false;
    }
    if !row_in_range(rhs) || !row_in_range(obj) {
        return false;
    }
    let mut i: usize = 0;
    while i < con.len()
        invariant
            i <= con@.len(),
            forall|k: int| 0 <= k < i ==> (#[trigger] con@[k])@.len() == obj@.len(),
            forall|k: int, j: int|
                0 <= k < i && 0 <= j < con@[k]@.len() ==> #[trigger] con@[k]@[j] >= -MAX_MAGNITUDE,
        decreases con@.len() - i,
    {
        if con[i].len() != obj.len() {
            return false;
        }
        if !row_in_range(&con[i]) {
            assert(!parts_valid(con@, rhs@, obj@, constant, scale)) by {
                let j = choose|j: int| 0 <= j < con@[i as int]@.len() && !(#[trigger] con@[i as int]@[j] >= -MAX_MAGNITUDE);
                assert(!(con@[i as int]@[j] >= -MAX_MAGNITUDE));
            }
            return false;
        }
        i += 1;
    }
    true
}

/// A simplex tableau.
///
/// The four parts are kept as sparse integer matrices: the constraint
/// coefficients (`rows x columns`), the right-hand sides (`rows x 1`), the
/// objective row (`1 x columns`) and the objective constant (`1 x 1`). Each
/// stored integer is a numerator over the common denominator `scale`.
pub struct Tableau {
    con_coef: Grid,
    con_rhs_coef: Grid,
    obj_coef: Grid,
    obj_rhs: Grid,
    scale: i64,
}

impl View for Tableau {
    type V = TableauModel;

    closed spec fn view(&self) -> TableauModel {
        TableauModel {
            a: Seq::new(
                grid_rows(self.con_coef),
                |i: int| Seq::new(grid_columns(self.con_coef), |j: int| grid_cells(self.con_coef)[(i, j)]),
            ),
            b: Seq::new(grid_rows(self.con_coef), |i: int| grid_cells(self.con_rhs_coef)[(i, 0int)]),
            c: Seq::new(grid_columns(self.con_coef), |j: int| grid_cells(self.obj_coef)[(0int, j)]),
            z: grid_cells(self.obj_rhs)[(0int, 0int)],
            d: self.scale as int,
        }
    }
}

impl Tableau {
    /// The parts agree in size, the denominator is positive, and everything
    /// fits the machine representation.
    pub closed spec fn wf(&self) -> bool {
        &&& grid_rows(self.con_rhs_coef) == grid_rows(self.con_coef)
        &&& grid_columns(self.con_rhs_coef) == 1
        &&& grid_rows(self.obj_coef) == 1
        &&& grid_columns(self.obj_coef) == grid_columns(self.con_coef)
        &&& grid_rows(self.obj_rhs) == 1
        &&& grid_columns(self.obj_rhs) == 1
        &&& self@.wf()
        &&& self@.in_range()
    }

    /// What well-formedness says of the mathematical content.
    pub proof fn lemma_wf(&self)
        requires
            self.wf(),
        ensures
            self@.wf(),
            self@.in_range(),
    {
    }

    /// The tableau of the given size whose numerators are all zero, over the
    /// denominator `scale`.
    pub fn zero(rows: usize, columns: usize, scale: i64) -> (t: Tableau)
        requires
            rows <= MAX_DIMENSION,
            columns <= MAX_DIMENSION,
            scale > 0,
        ensures
            t.wf(),
            t@ == TableauModel::zero(rows as nat, columns as nat, scale as int),
    {
        let t = Tableau {
            con_coef: grid_zero(rows, columns),
            con_rhs_coef: grid_zero(rows, 1),
            obj_coef: grid_zero(1, columns),
            obj_rhs: grid_zero(1, 1),
            scale,
        };
        proof {
            let m = TableauModel::zero(rows as nat, columns as nat, scale as int);
            assert(t@.a =~~= m.a);
            assert(t@.b =~= m.b);
            assert(t@.c =~= m.c);
        }
        t
    }

    /// Builds a tableau from plain values: one vector of numerators per
    /// constraint row, the right-hand sides, the objective row, the objective
    /// constant and the common denominator. Returns `None` exactly when the
    /// values do not describe a tableau.
    pub fn from_parts(
        con: &Vec<Vec<i64>>,
        rhs: &Vec<i64>,
        obj: &Vec<i64>,
        constant: i64,
        scale: i64,
    ) -> (made: Option<Tableau>)
        ensures
            made.is_some() == parts_valid(con@, rhs@, obj@, constant, scale),
            made matches Some(t) ==> t.wf() && t@ == parts_model(con@, rhs@, obj@, constant, scale),
    {
        if !check_parts(con, rhs, obj, constant, scale) {
            return None;
        }
        let rows = rhs.len();
        let columns = obj.len();
        let ghost target = parts_model(con@, rhs@, obj@, constant, scale);
        let mut t = Tableau::zero(rows, columns, scale);
        let mut i: usize = 0;
        while i < rows
            invariant
                i <= rows,
                rows == rhs@.len(),
                columns == obj@.len(),
                target == parts_model(con@, rhs@, obj@, constant, scale),
                parts_valid(con@, rhs@, obj@, constant, scale),
                t.wf(),
                t@.wf(),
                t@.rows() == rows,
                t@.cols() == columns,
                t@.d == scale,
                forall|p: int, q: int|
                    0 <= p < i && 0 <= q <= columns ==> #[trigger] t@.entry(p, q) == target.entry(p, q),
            decreases rows - i,
        {
            let row = &con[i];
            let mut j: usize = 0;
            while j < columns
                invariant
                    i < rows,
                    j <= columns,
                    rows == rhs@.len(),
                    columns == obj@.len(),
                    row@ == con@[i as int]@,
                    target == parts_model(con@, rhs@, obj@, constant, scale),
                    parts_valid(con@, rhs@, obj@, constant, scale),
                    t.wf(),
                    t@.wf(),
                    t@.rows() == rows,
                    t@.cols() == columns,
                    t@.d == scale,
                    forall|p: int, q: int|
                        0 <= p < i && 0 <= q <= columns ==> #[trigger] t@.entry(p, q) == target.entry(
                            p,
                            q,
                        ),
                    forall|q: int| 0 <= q < j ==> #[trigger] t@.entry(i as int, q) == target.entry(i as int, q),
                decreases columns - j,
            {
                let ghost before = t@;
                assert(con@[i as int]@[j as int] >= -MAX_MAGNITUDE);
                t.set_entry(i, j, row[j]);
                proof {
                    lemma_with_entry(before, i as int, j as int, row@[j as int] as int);
                }
                j += 1;
            }
            let ghost before = t@;
            t.set_entry(i, columns, rhs[i]);
            proof {
                lemma_with_entry(before, i as int, columns as int, rhs@[i as int] as int);
            }
            i += 1;
        }
        let mut j: usize = 0;
        while j < columns
            invariant
                j <= columns,
                rows == rhs@.len(),
                columns == obj@.len(),
                target == parts_model(con@, rhs@, obj@, constant, scale),
                parts_valid(con@, rhs@, obj@, constant, scale),
                t.wf(),
                t@.wf(),
                t@.rows() == rows,
                t@.cols() == columns,
                t@.d == scale,
                forall|p: int, q: int|
                    0 <= p < rows && 0 <= q <= columns ==> #[trigger] t@.entry(p, q) == target.entry(p, q),
                forall|q: int| 0 <= q < j ==> #[trigger] t@.entry(rows as int, q) == target.entry(rows as int, q),
            decreases columns - j,
        {
            let ghost before = t@;
            t.set_entry(rows, j, obj[j]);
            proof {
                lemma_with_entry(before, rows as int, j as int, obj@[j as int] as int);
            }
            j += 1;
        }
        let ghost before = t@;
        t.set_entry(rows, columns, constant);
        proof {
            lemma_with_entry(before, rows as int, columns as int, constant as int);
            lemma_model_extensional(t@, target);
        }
        Some(t)
    }

    /// The number of constraint rows.
    pub fn rows(&self) -> (n: usize)
        requires
            self.wf(),
        ensures
            n == self@.rows(),
            n <= MAX_DIMENSION,
    {
        grid_row_count(&self.con_coef)
    }

    /// The number of columns.
    pub fn columns(&self) -> (n: usize)
        requires
            self.wf(),
        ensures
            n == self@.cols(),
            n <= MAX_DIMENSION,
    {
        grid_column_count(&self.con_coef)
    }

    /// The common denominator.
    pub fn scale(&self) -> (d: i64)
        requires
            self.wf(),
        ensures
            d == self@.d,
            0 < d <= MAX_MAGNITUDE,
    {
        self.scale
    }

    /// The numerator at `(i, j)` of the tableau extended by the right-hand
    /// side column and the objective row.
    pub fn entry(&self, i: usize, j: usize) -> (v: i64)
        requires
            self.wf(),
            i <= self@.rows(),
            j <= self@.cols(),
        ensures
            v == self@.entry(i as int, j as int),
            -MAX_MAGNITUDE <= v <= MAX_MAGNITUDE,
    {
        let rows = grid_row_count(&self.con_coef);
        let columns = grid_column_count(&self.con_coef);
        assert(-MAX_MAGNITUDE <= self@.entry(i as int, j as int) <= MAX_MAGNITUDE);
        if i < rows {
            if j < columns {
                grid_get(&self.con_coef, i, j)
            } else {
                grid_get(&self.con_rhs_coef, i, 0)
            }
        } else {
            if j < columns {
                grid_get(&self.obj_coef, 0, j)
            } else {
                grid_get(&self.obj_rhs, 0, 0)
            }
        }
    }

    /// The numerator of the constraint coefficient in row `i`, column `j`.
    pub fn coefficient(&self, i: usize, j: usize) -> (v: i64)
        requires
            self.wf(),
            i < self@.rows(),
            j < self@.cols(),
        ensures
            v == self@.a[i as int][j as int],
            -MAX_MAGNITUDE <= v <= MAX_MAGNITUDE,
    {
        self.entry(i, j)
    }

    /// The numerator of the right-hand side of row `i`.
    pub fn rhs(&self, i: usize) -> (v: i64)
        requires
            self.wf(),
            i < self@.rows(),
        ensures
            v == self@.b[i as int],
            -MAX_MAGNITUDE <= v <= MAX_MAGNITUDE,
    {
        let columns = self.columns();
        self.entry(i, columns)
    }

    /// The numerator of the objective coefficient of column `j`.
    pub fn objective(&self, j: usize) -> (v: i64)
        requires
            self.wf(),
            j < self@.cols(),
        ensures
            v == self@.c[j as int],
            -MAX_MAGNITUDE <= v <= MAX_MAGNITUDE,
    {
        let rows = self.rows();
        self.entry(rows, j)
    }

    /// The numerator of the objective constant.
    pub fn objective_constant(&self) -> (v: i64)
        requires
            self.wf(),
        ensures
            v == self@.z,
            -MAX_MAGNITUDE <= v <= MAX_MAGNITUDE,
    {
        let rows = self.rows();
        let columns = self.columns();
        self.entry(rows, columns)
    }

    /// Row `i` of the constraint coefficients. The row is read from a dense
    /// copy of the coefficient matrix where such a copy can be addressed, and
    /// element by element otherwise.
    pub fn constraint_row(&self, i: usize) -> (row: Vec<i64>)
        requires
            self.wf(),
            i < self@.rows(),
        ensures
            ints(row@) == self@.a[i as int],
            row@.len() == self@.cols(),
            forall|j: int| 0 <= j < row@.len() ==> -MAX_MAGNITUDE <= #[trigger] row@[j] <= MAX_MAGNITUDE,
    {
        let rows = grid_row_count(&self.con_coef);
        let columns = grid_column_count(&self.con_coef);
        let mut row: Vec<i64> = Vec::new();
        let mut j: usize = 0;
        match rows.checked_mul(columns) {
            Some(_) => {
                let dense = grid_to_dense(&self.con_coef);
                while j < columns
                    invariant
                        self.wf(),
                        i < rows,
                        rows == grid_rows(self.con_coef),
                        columns == grid_columns(self.con_coef),
                        dense_rows(dense) == rows,
                        dense_columns(dense) == columns,
                        dense_cells(dense) == grid_cells(self.con_coef),
                        j <= columns,
                        row@.len() == j,
                        forall|k: int| 0 <= k < j ==> #[trigger] row@[k] == self@.a[i as int][k],
                    decreases columns - j,
                {
                    row.push(dense_get(&dense, i, j));
                    j += 1;
                }
            },
            None => {
                while j < columns
                    invariant
                        self.wf(),
                        i < rows,
                        rows == grid_rows(self.con_coef),
                        columns == grid_columns(self.con_coef),
                        j <= columns,
                        row@.len() == j,
                        forall|k: int| 0 <= k < j ==> #[trigger] row@[k] == self@.a[i as int][k],
                    decreases columns - j,
                {
                    row.push(grid_get(&self.con_coef, i, j));
                    j += 1;
                }
            },
        }
        proof {
            assert(ints(row@) =~= self@.a[i as int]);
            assert forall|k: int| 0 <= k < row@.len() implies -MAX_MAGNITUDE <= #[trigger] row@[k]
                <= MAX_MAGNITUDE by {
                assert(row@[k] == self@.entry(i as int, k));
            }
        }
        row
    }

    /// Column `j` of the constraint coefficients.
    pub fn constraint_column(&self, j: usize) -> (column: Vec<i64>)
        requires
            self.wf(),
            j < self@.cols(),
        ensures
            ints(column@) == self@.column(j as int),
            column@.len() == self@.rows(),
            forall|i: int|
                0 <= i < column@.len() ==> -MAX_MAGNITUDE <= #[trigger] column@[i] <= MAX_MAGNITUDE,
    {
        let rows = self.rows();
        let mut column: Vec<i64> = Vec::new();
        let mut i: usize = 0;
        while i < rows
            invariant
                self.wf(),
                j < self@.cols(),
                rows == self@.rows(),
                i <= rows,
                column@.len() == i,
                forall|k: int| 0 <= k < i ==> #[trigger] column@[k] == self@.a[k][j as int],
                forall|k: int| 0 <= k < i ==> -MAX_MAGNITUDE <= #[trigger] column@[k] <= MAX_MAGNITUDE,
            decreases rows - i,
        {
            column.push(self.coefficient(i, j));
            i += 1;
        }
        proof {
            assert(ints(column@) =~= self@.column(j as int));
        }
        column
    }

    /// The right-hand sides, from the first row down.
    pub fn rhs_column(&self) -> (column: Vec<i64>)
        requires
            self.wf(),
        ensures
            ints(column@) == self@.b,
            column@.len() == self@.rows(),
            forall|i: int|
                0 <= i < column@.len() ==> -MAX_MAGNITUDE <= #[trigger] column@[i] <= MAX_MAGNITUDE,
    {
        let rows = self.rows();
        let mut column: Vec<i64> = Vec::new();
        let mut i: usize = 0;
        while i < rows
            invariant
                self.wf(),
                rows == self@.rows(),
                i <= rows,
                column@.len() == i,
                forall|k: int| 0 <= k < i ==> #[trigger] column@[k] == self@.b[k],
                forall|k: int| 0 <= k < i ==> -MAX_MAGNITUDE <= #[trigger] column@[k] <= MAX_MAGNITUDE,
            decreases rows - i,
        {
            column.push(self.rhs(i));
            i += 1;
        }
        proof {
            assert(ints(column@) =~= self@.b);
        }
        column
    }

    /// The objective row, from the first column on.
    pub fn objective_row(&self) -> (row: Vec<i64>)
        requires
            self.wf(),
        ensures
            ints(row@) == self@.c,
            row@.len() == self@.cols(),
            forall|j: int| 0 <= j < row@.len() ==> -MAX_MAGNITUDE <= #[trigger] row@[j] <= MAX_MAGNITUDE,
    {
        let columns = self.columns();
        let mut row: Vec<i64> = Vec::new();
        let mut j: usize = 0;
        while j < columns
            invariant
                self.wf(),
                columns == self@.cols(),
                j <= columns,
                row@.len() == j,
                forall|k: int| 0 <= k < j ==> #[trigger] row@[k] == self@.c[k],
                forall|k: int| 0 <= k < j ==> -MAX_MAGNITUDE <= #[trigger] row@[k] <= MAX_MAGNITUDE,
            decreases columns - j,
        {
            row.push(self.objective(j));
            j += 1;
        }
        proof {
            assert(ints(row@) =~= self@.c);
        }
        row
    }

    /// Replaces the numerator at `(i, j)` of the extended tableau.
    pub fn set_entry(&mut self, i: usize, j: usize, v: i64)
        requires
            old(self).wf(),
            i <= old(self)@.rows(),
            j <= old(self)@.cols(),
            -MAX_MAGNITUDE <= v <= MAX_MAGNITUDE,
        ensures
            final(self).wf(),
            final(self)@ == old(self)@.with_entry(i as int, j as int, v as int),
    {
        let rows = grid_row_count(&self.con_coef);
        let columns = grid_column_count(&self.con_coef);
        let ghost before = self@;
        if i < rows {
            if j < columns {
                grid_set(&mut self.con_coef, i, j, v);
            } else {
                grid_set(&mut self.con_rhs_coef, i, 0, v);
            }
        } else {
            if j < columns {
                grid_set(&mut self.obj_coef, 0, j, v);
            } else {
                grid_set(&mut self.obj_rhs, 0, 0, v);
            }
        }
        proof {
            let after = before.with_entry(i as int, j as int, v as int);
            assert(self@.a =~~= after.a);
            assert(self@.b =~= after.b);
            assert(self@.c =~= after.c);
            assert(self@ == after);
            assert forall|p: int, q: int|
                0 <= p <= after.rows() && 0 <= q <= after.cols() implies -MAX_MAGNITUDE
                <= #[trigger] after.entry(p, q) <= MAX_MAGNITUDE by {
                assert(after.entry(p, q) == if p == i && q == j {
                    v as int
                } else {
                    before.entry(p, q)
                });
            }
        }
    }

    /// Replaces the common denominator.
    pub fn set_scale(&mut self, scale: i64)
        requires
            old(self).wf(),
            scale > 0,
        ensures
            final(self).wf(),
            final(self)@ == (TableauModel { d: scale as int, ..old(self)@ }),
    {
        let ghost before = self@;
        self.scale = scale;
        proof {
            let after = TableauModel { d: scale as int, ..before };
            assert(self@ == after);
            assert forall|p: int, q: int|
                0 <= p <= after.rows() && 0 <= q <= after.cols() implies -MAX_MAGNITUDE
                <= #[trigger] after.entry(p, q) <= MAX_MAGNITUDE by {
                assert(after.entry(p, q) == before.entry(p, q));
            }
        }
    }

    /// A copy of the tableau with one more constraint row and one more
    /// column, both zero.
    pub fn extended(&self) -> (copy: Tableau)
        requires
            self.wf(),
            self@.rows() < MAX_DIMENSION,
            self@.cols() < MAX_DIMENSION,
        ensures
            copy.wf(),
            copy@ == self@.extended(),
    {
        let rows = grid_row_count(&self.con_coef);
        let columns = grid_column_count(&self.con_coef);
        let mut copy = Tableau {
            con_coef: grid_clone(&self.con_coef),
            con_rhs_coef: grid_clone(&self.con_rhs_coef),
            obj_coef: grid_clone(&self.obj_coef),
            obj_rhs: grid_clone(&self.obj_rhs),
            scale: self.scale,
        };
        grid_resize(&mut copy.con_coef, rows + 1, columns + 1);
        grid_resize(&mut copy.con_rhs_coef, rows + 1, 1);
        grid_resize(&mut copy.obj_coef, 1, columns + 1);
        proof {
            let target = self@.extended();
            assert forall|i: int| 0 <= i < rows + 1 implies #[trigger] copy@.a[i] =~= target.a[i] by {
                assert forall|j: int| 0 <= j < columns + 1 implies copy@.a[i][j] == target.a[i][j] by {
                    assert(positions(rows as nat, columns as nat).contains((i, j)) <==> (i < rows && j
                        < columns));
                }
            }
            assert(copy@.a =~= target.a);
            assert forall|i: int| 0 <= i < rows + 1 implies #[trigger] copy@.b[i] == target.b[i] by {
                assert(positions(rows as nat, 1).contains((i, 0int)) <==> i < rows);
            }
            assert(copy@.b =~= target.b);
            assert forall|j: int| 0 <= j < columns + 1 implies #[trigger] copy@.c[j] == target.c[j] by {
                assert(positions(1, columns as nat).contains((0int, j)) <==> j < columns);
            }
            assert(copy@.c =~= target.c);
            assert(copy@ == target);
            assert forall|p: int, q: int|
                0 <= p <= target.rows() && 0 <= q <= target.cols() implies -MAX_MAGNITUDE
                <= #[trigger] target.entry(p, q) <= MAX_MAGNITUDE by {
                if p < rows && q < columns {
                    assert(target.entry(p, q) == self@.entry(p, q));
                } else if p < rows && q == columns + 1 {
                    assert(target.entry(p, q) == self@.entry(p, columns as int));
                } else if p == rows + 1 && q < columns {
                    assert(target.entry(p, q) == self@.entry(rows as int, q));
                } else if p == rows + 1 && q == columns + 1 {
                    assert(target.entry(p, q) == self@.entry(rows as int, columns as int));
                }
            }
        }
        copy
    }

    /// An independent copy of the tableau.
    pub fn duplicate(&self) -> (copy: Tableau)
        requires
            self.wf(),
        ensures
            copy.wf(),
            copy@ == self@,
    {
        let copy = Tableau {
            con_coef: grid_clone(&self.con_coef),
            con_rhs_coef: grid_clone(&self.con_rhs_coef),
            obj_coef: grid_clone(&self.obj_coef),
            obj_rhs: grid_clone(&self.obj_rhs),
            scale: self.scale,
        };
        proof {
            assert(copy@.a =~~= self@.a);
            assert(copy@.b =~= self@.b);
            assert(copy@.c =~= self@.c);
        }
        copy
    }
}

} // verus!

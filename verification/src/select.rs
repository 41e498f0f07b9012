//! The pivot selection rules of the primal and the dual simplex method.

use vstd::prelude::*;
use crate::arith::lemma_fraction_order;
use crate::arith::FACTOR_BOUND;
use crate::arith::magnitude;
use crate::arith::wide_product;
use crate::tableau::ints;
use crate::tableau::Tableau;
use crate::tableau::MAX_DIMENSION;
use crate::tableau::MAX_MAGNITUDE;

verus! {

/// The integers that a sequence of 128-bit integers holds.
pub open spec fn wide_ints(s: Seq<i128>) -> Seq<int> {
    Seq::new(s.len(), |i: int| s[i] as int)
}

/// `k` is the position of the most negative element of `s`: the element is
/// negative, no element is smaller, and every earlier element is larger.
pub open spec fn is_most_negative(s: Seq<int>, k: int) -> bool {
    &&& 0 <= k < s.len()
    &&& s[k] < 0
    &&& forall|j: int| 0 <= j < s.len() ==> s[k] <= #[trigger] s[j]
    &&& forall|j: int| 0 <= j < k ==> s[k] < #[trigger] s[j]
}

/// The position of the first occurrence of the most negative element of `s`,
/// or `-1` where no element is negative.
pub open spec fn most_negative(s: Seq<int>) -> int {
    if exists|k: int| is_most_negative(s, k) {
        choose|k: int| is_most_negative(s, k)
    } else {
        -1
    }
}

/// Position `i` takes part in a ratio test: numerator and denominator are
/// both positive there.
pub open spec fn ratio_candidate(num: Seq<int>, den: Seq<int>, i: int) -> bool {
    &&& 0 <= i < num.len()
    &&& i < den.len()
    &&& num[i] > 0
    &&& den[i] > 0
}

/// `k` is the position of the smallest ratio `num[k] / den[k]` among the
/// candidates: no candidate has a smaller ratio, and every earlier candidate
/// has a larger one. Ratios are compared by their cross products.
pub open spec fn is_min_ratio(num: Seq<int>, den: Seq<int>, k: int) -> bool {
    &&& ratio_candidate(num, den, k)
    &&& forall|i: int| #[trigger]
        ratio_candidate(num, den, i) ==> num[k] * den[i] <= num[i] * den[k]
    &&& forall|i: int| #[trigger]
        ratio_candidate(num, den, i) && i < k ==> num[k] * den[i] < num[i] * den[k]
}

/// The position of the first occurrence of the smallest ratio among the
/// candidates, or `-1` where there is no candidate.
pub open spec fn min_ratio_index(num: Seq<int>, den: Seq<int>) -> int {
    if exists|k: int| is_min_ratio(num, den, k) {
        choose|k: int| is_min_ratio(num, den, k)
    } else {
        -1
    }
}

/// The entering column of the primal method: the most negative coefficient
/// of the objective row, or `-1` where the row has no negative coefficient.
pub open spec fn primal_entering(c: Seq<int>) -> int {
    most_negative(c)
}

/// The leaving row of the primal method for entering column `e`: among the
/// rows with a positive right-hand side and a positive coefficient in column
/// `e`, the first with the smallest ratio of the two, or `-1` where there is
/// no such row.
pub open spec fn primal_leaving(b: Seq<int>, column: Seq<int>) -> int {
    min_ratio_index(b, column)
}

/// The leaving row of the dual method: the most negative right-hand side, or
/// `-1` where no right-hand side is negative.
pub open spec fn dual_leaving(b: Seq<int>) -> int {
    most_negative(b)
}

/// The magnitudes of the objective coefficients.
pub open spec fn dual_numerators(c: Seq<int>) -> Seq<int> {
    Seq::new(c.len(), |j: int| magnitude(c[j]) as int)
}

/// The negated coefficients of the leaving row.
pub open spec fn dual_denominators(leave: Seq<int>) -> Seq<int> {
    Seq::new(leave.len(), |j: int| -leave[j])
}

/// The entering column of the dual method for a leaving row with the
/// coefficients `leave`: among the columns whose coefficient in that row is
/// negative and whose objective coefficient is not zero, the first with the
/// smallest ratio `|c[j] / leave[j]|`, or `-1` where there is no such column.
pub open spec fn dual_entering(c: Seq<int>, leave: Seq<int>) -> int {
    min_ratio_index(dual_numerators(c), dual_denominators(leave.take(c.len() as int)))
}

/// No sequence has two positions of its most negative element.
pub proof fn lemma_most_negative_unique(s: Seq<int>, k: int)
    requires
        is_most_negative(s, k),
    ensures
        most_negative(s) == k,
{
    let other = most_negative(s);
    assert(is_most_negative(s, other));
    if other < k {
        assert(s[k] < s[other]);
        assert(s[other] <= s[k]);
    } else if k < other {
        assert(s[other] < s[k]);
        assert(s[k] <= s[other]);
    }
}

/// Where no element is negative, there is no most negative element.
pub proof fn lemma_most_negative_none(s: Seq<int>)
    requires
        forall|j: int| 0 <= j < s.len() ==> #[trigger] s[j] >= 0,
    ensures
        most_negative(s) == -1,
{
}

/// No ratio test has two positions of its smallest ratio.
pub proof fn lemma_min_ratio_unique(num: Seq<int>, den: Seq<int>, k: int)
    requires
        is_min_ratio(num, den, k),
    ensures
        min_ratio_index(num, den) == k,
{
    let other = min_ratio_index(num, den);
    assert(is_min_ratio(num, den, other));
    assert(ratio_candidate(num, den, other));
    assert(ratio_candidate(num, den, k));
    if other < k {
        assert(num[k] * den[other] < num[other] * den[k]);
        assert(num[other] * den[k] <= num[k] * den[other]);
    } else if k < other {
        assert(num[other] * den[k] < num[k] * den[other]);
        assert(num[k] * den[other] <= num[other] * den[k]);
    }
}

/// Where there is no candidate, the ratio test finds nothing.
pub proof fn lemma_min_ratio_none(num: Seq<int>, den: Seq<int>)
    requires
        forall|i: int| !#[trigger] ratio_candidate(num, den, i),
    ensures
        min_ratio_index(num, den) == -1,
{
}

/// The position of the most negative element of `values`.
fn most_negative_of(values: &Vec<i64>) -> (found: i32)
    requires
        values@.len() <= MAX_DIMENSION,
    ensures
        found == most_negative(ints(values@)),
        -1 <= found < values@.len(),
        found >= 0 ==> is_most_negative(ints(values@), found as int),
        found == -1 ==> forall|j: int| 0 <= j < values@.len() ==> #[trigger] values@[j] >= 0,
{
    let ghost s = ints(values@);
    let mut best: i32 = -1;
    let mut least: i64 = 0;
    let mut j: usize = 0;
    while j < values.len()
        invariant
            j <= values@.len(),
            values@.len() <= MAX_DIMENSION,
            s == ints(values@),
            -1 <= best < j,
            best == -1 ==> least == 0 && forall|k: int| 0 <= k < j ==> #[trigger] s[k] >= 0,
            best >= 0 ==> least == s[best as int] && least < 0,
            best >= 0 ==> forall|k: int| 0 <= k < j ==> least <= #[trigger] s[k],
            best >= 0 ==> forall|k: int| 0 <= k < best ==> least < #[trigger] s[k],
        decreases values@.len() - j,
    {
        let value = values[j];
        assert(s[j as int] == value);
        if value < least {
            least = value;
            best = j as i32;
        }
        j += 1;
    }
    proof {
        if best >= 0 {
            lemma_most_negative_unique(s, best as int);
        } else {
            lemma_most_negative_none(s);
            assert forall|j: int| 0 <= j < values@.len() implies #[trigger] values@[j] >= 0 by {
                assert(s[j] >= 0);
            }
        }
    }
    best
}

/// The position of the smallest ratio `nums[k] / dens[k]` among the positions
/// where both are positive.
fn min_ratio_of(nums: &Vec<i128>, dens: &Vec<i128>) -> (found: i32)
    requires
        nums@.len() == dens@.len(),
        nums@.len() <= MAX_DIMENSION,
        forall|i: int| 0 <= i < nums@.len() ==> -FACTOR_BOUND <= #[trigger] nums@[i] <= FACTOR_BOUND,
        forall|i: int| 0 <= i < dens@.len() ==> -FACTOR_BOUND <= #[trigger] dens@[i] <= FACTOR_BOUND,
    ensures
        found == min_ratio_index(wide_ints(nums@), wide_ints(dens@)),
        -1 <= found < nums@.len(),
        found == -1 ==> forall|i: int| !#[trigger] ratio_candidate(wide_ints(nums@), wide_ints(dens@), i),
{
    let ghost num = wide_ints(nums@);
    let ghost den = wide_ints(dens@);
    let mut best: i32 = -1;
    let mut best_num: i128 = 0;
    let mut best_den: i128 = 1;
    let mut i: usize = 0;
    while i < nums.len()
        invariant
            i <= nums@.len(),
            nums@.len() == dens@.len(),
            nums@.len() <= MAX_DIMENSION,
            num == wide_ints(nums@),
            den == wide_ints(dens@),
            forall|k: int| 0 <= k < nums@.len() ==> -FACTOR_BOUND <= #[trigger] nums@[k] <= FACTOR_BOUND,
            forall|k: int| 0 <= k < dens@.len() ==> -FACTOR_BOUND <= #[trigger] dens@[k] <= FACTOR_BOUND,
            -1 <= best < i,
            best == -1 ==> forall|k: int| 0 <= k < i ==> !#[trigger] ratio_candidate(num, den, k),
            best >= 0 ==> ratio_candidate(num, den, best as int) && best_num == num[best as int]
                && best_den == den[best as int],
            best >= 0 ==> forall|k: int| #[trigger]
                ratio_candidate(num, den, k) && k < i ==> best_num * den[k] <= num[k] * best_den,
            best >= 0 ==> forall|k: int| #[trigger]
                ratio_candidate(num, den, k) && k < best ==> best_num * den[k] < num[k] * best_den,
            -FACTOR_BOUND <= best_num <= FACTOR_BOUND,
            -FACTOR_BOUND <= best_den <= FACTOR_BOUND,
        decreases nums@.len() - i,
    {
        let n = nums[i];
        let d = dens[i];
        assert(num[i as int] == n && den[i as int] == d);
        if n > 0 && d > 0 {
            if best == -1 {
                best = i as i32;
                best_num = n;
                best_den = d;
            } else {
                let left = wide_product(n, best_den);
                let right = wide_product(best_num, d);
                if left < right {
                    proof {
                        assert forall|k: int| #[trigger]
                            ratio_candidate(num, den, k) && k < i implies n * den[k] < num[k] * d by {
                            lemma_fraction_order(
                                n as int,
                                d as int,
                                best_num as int,
                                best_den as int,
                                num[k],
                                den[k],
                            );
                        }
                    }
                    best = i as i32;
                    best_num = n;
                    best_den = d;
                }
            }
        }
        i += 1;
    }
    proof {
        if best >= 0 {
            assert(is_min_ratio(num, den, best as int));
            lemma_min_ratio_unique(num, den, best as int);
        } else {
            lemma_min_ratio_none(num, den);
        }
    }
    best
}

/// The entering column of the primal method: the column with the most
/// negative objective coefficient, the first of them where several are
/// equal, or `-1` where no coefficient is negative.
pub fn get_primal_enter_var(t: &Tableau) -> (enter_idx: i32)
    requires
        t.wf(),
    ensures
        enter_idx == primal_entering(t@.c),
        -1 <= enter_idx < t@.cols(),
        enter_idx >= 0 ==> is_most_negative(t@.c, enter_idx as int),
        enter_idx == -1 ==> forall|j: int| 0 <= j < t@.cols() ==> #[trigger] t@.c[j] >= 0,
{
    proof {
        t.lemma_wf();
    }
    let row = t.objective_row();
    let found = most_negative_of(&row);
    proof {
        if found == -1 {
            assert forall|j: int| 0 <= j < t@.cols() implies #[trigger] t@.c[j] >= 0 by {
                assert(ints(row@)[j] == row@[j]);
            }
        }
    }
    found
}

/// The leaving row of the dual method: the row with the most negative
/// right-hand side, the first of them where several are equal, or `-1` where
/// no right-hand side is negative.
pub fn get_dual_leaving_var(t: &Tableau) -> (leaving_idx: i32)
    requires
        t.wf(),
    ensures
        leaving_idx == dual_leaving(t@.b),
        -1 <= leaving_idx < t@.rows(),
        leaving_idx >= 0 ==> is_most_negative(t@.b, leaving_idx as int),
        leaving_idx == -1 ==> forall|i: int| 0 <= i < t@.rows() ==> #[trigger] t@.b[i] >= 0,
{
    proof {
        t.lemma_wf();
    }
    let column = t.rhs_column();
    let found = most_negative_of(&column);
    proof {
        if found == -1 {
            assert forall|i: int| 0 <= i < t@.rows() implies #[trigger] t@.b[i] >= 0 by {
                assert(ints(column@)[i] == column@[i]);
            }
        }
    }
    found
}

/// The leaving row of the primal method for the entering column `enter_idx`:
/// the ratio test over the rows with a positive right-hand side and a
/// positive coefficient in that column. A zero ratio cannot arise among such
/// rows, so no row is set aside for it.
pub fn get_primal_leaving_var(t: &Tableau, enter_idx: i32) -> (leaving_idx: i32)
    requires
        t.wf(),
        0 <= enter_idx < t@.cols(),
    ensures
        leaving_idx == primal_leaving(t@.b, t@.column(enter_idx as int)),
        -1 <= leaving_idx < t@.rows(),
        leaving_idx >= 0 ==> is_min_ratio(t@.b, t@.column(enter_idx as int), leaving_idx as int),
        leaving_idx == -1 ==> forall|i: int|
            0 <= i < t@.rows() ==> !(#[trigger] t@.b[i] > 0 && t@.a[i][enter_idx as int] > 0),
{
    proof {
        t.lemma_wf();
    }
    let rhs = t.rhs_column();
    let column = t.constraint_column(enter_idx as usize);
    let mut nums: Vec<i128> = Vec::new();
    let mut dens: Vec<i128> = Vec::new();
    let mut i: usize = 0;
    while i < rhs.len()
        invariant
            i <= rhs@.len(),
            rhs@.len() == column@.len(),
            nums@.len() == i,
            dens@.len() == i,
            forall|k: int| 0 <= k < rhs@.len() ==> -MAX_MAGNITUDE <= #[trigger] rhs@[k] <= MAX_MAGNITUDE,
            forall|k: int|
                0 <= k < column@.len() ==> -MAX_MAGNITUDE <= #[trigger] column@[k] <= MAX_MAGNITUDE,
            forall|k: int| 0 <= k < i ==> #[trigger] nums@[k] == rhs@[k],
            forall|k: int| 0 <= k < i ==> #[trigger] dens@[k] == column@[k],
        decreases rhs@.len() - i,
    {
        nums.push(rhs[i] as i128);
        dens.push(column[i] as i128);
        i += 1;
    }
    proof {
        assert(ints(rhs@).len() == ints(column@).len());
        assert(wide_ints(nums@) =~= ints(rhs@));
        assert(wide_ints(dens@) =~= ints(column@));
    }
    let found = min_ratio_of(&nums, &dens);
    proof {
        let b = t@.b;
        let col = t@.column(enter_idx as int);
        if found >= 0 {
            assert(is_min_ratio(b, col, found as int));
        } else {
            assert forall|i: int| 0 <= i < t@.rows() implies !(#[trigger] t@.b[i] > 0 && t@.a[i][enter_idx as int]
                > 0) by {
                if t@.b[i] > 0 && t@.a[i][enter_idx as int] > 0 {
                    assert(ratio_candidate(b, col, i));
                }
            }
        }
    }
    found
}

/// The entering column of the dual method for a leaving row with the
/// coefficients `leave_coef`: among the columns whose coefficient in the
/// leaving row is negative, the one with the smallest positive ratio
/// `|objective coefficient / leaving-row coefficient|`, the first of them
/// where several are equal, or `-1` where there is none.
pub fn get_dual_enter_var(t: &Tableau, leave_coef: Vec<i64>) -> (enter_idx: i32)
    requires
        t.wf(),
        leave_coef@.len() >= t@.cols(),
    ensures
        enter_idx == dual_entering(t@.c, ints(leave_coef@)),
        -1 <= enter_idx < t@.cols(),
        enter_idx >= 0 ==> leave_coef@[enter_idx as int] < 0 && t@.c[enter_idx as int] != 0,
        enter_idx == -1 ==> forall|j: int|
            0 <= j < t@.cols() ==> !(#[trigger] leave_coef@[j] < 0 && t@.c[j] != 0),
{
    proof {
        t.lemma_wf();
    }
    let row = t.objective_row();
    let mut nums: Vec<i128> = Vec::new();
    let mut dens: Vec<i128> = Vec::new();
    let mut j: usize = 0;
    while j < row.len()
        invariant
            j <= row@.len(),
            row@.len() <= leave_coef@.len(),
            nums@.len() == j,
            dens@.len() == j,
            forall|k: int| 0 <= k < row@.len() ==> -MAX_MAGNITUDE <= #[trigger] row@[k] <= MAX_MAGNITUDE,
            forall|k: int| 0 <= k < j ==> #[trigger] nums@[k] == magnitude(row@[k] as int),
            forall|k: int| 0 <= k < j ==> #[trigger] dens@[k] == -leave_coef@[k],
        decreases row@.len() - j,
    {
        let c = row[j];
        nums.push(
            if c < 0 {
                -(c as i128)
            } else {
                c as i128
            },
        );
        dens.push(-(leave_coef[j] as i128));
        j += 1;
    }
    let ghost num = dual_numerators(t@.c);
    let ghost den = dual_denominators(ints(leave_coef@).take(t@.c.len() as int));
    proof {
        assert(ints(row@).len() == row@.len());
        assert(wide_ints(nums@) =~= num) by {
            assert forall|k: int| 0 <= k < nums@.len() implies nums@[k] as int == num[k] by {
                assert(ints(row@)[k] == row@[k]);
            }
        }
        assert(wide_ints(dens@) =~= den);
    }
    let found = min_ratio_of(&nums, &dens);
    proof {
        if found >= 0 {
            assert(is_min_ratio(num, den, found as int));
            assert(ratio_candidate(num, den, found as int));
        } else {
            assert forall|j: int| 0 <= j < t@.cols() implies !(#[trigger] leave_coef@[j] < 0 && t@.c[j] != 0) by {
                if leave_coef@[j] < 0 && t@.c[j] != 0 {
                    assert(ratio_candidate(num, den, j));
                }
            }
        }
    }
    found
}

} // verus!

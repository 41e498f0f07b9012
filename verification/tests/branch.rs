use bnb_simplex::branch::build_child;
use bnb_simplex::branch::find_one_row;
use bnb_simplex::branch::fraction_of;
use bnb_simplex::branch::get_branch_var;
use bnb_simplex::branch::is_all_integral;
use bnb_simplex::branch::unit_row_of;
use bnb_simplex::tableau::Tableau;

fn parent() -> Tableau {
    // over the denominator 2: x1 + y/2 = 1/2, 3y/2 + s = 2
    let con: Vec<Vec<i64>> = vec![vec![2, 1, 0], vec![0, 3, 2]];
    Tableau::from_parts(&con, &vec![1, 4], &vec![0, 1, 0], 5, 2).unwrap()
}

#[test]
fn fraction_is_the_value_less_its_floor() {
    assert_eq!(fraction_of(7, 3), 1);
    assert_eq!(fraction_of(6, 3), 0);
    assert_eq!(fraction_of(0, 3), 0);
    assert_eq!(fraction_of(2, 10), 2);
    // -1/3 is -1 + 2/3, -7/3 is -3 + 2/3
    assert_eq!(fraction_of(-1, 3), 2);
    assert_eq!(fraction_of(-7, 3), 2);
    assert_eq!(fraction_of(-6, 3), 0);
    assert_eq!(fraction_of(-i64::MAX, i64::MAX), 0);
    assert_eq!(fraction_of(-i64::MAX, 2), 1);
}

#[test]
fn integrality_looks_at_every_right_hand_side() {
    let con: Vec<Vec<i64>> = vec![vec![1], vec![1], vec![1]];
    let t = Tableau::from_parts(&con, &vec![4, -6, 0], &vec![0], 1, 2).unwrap();
    assert!(is_all_integral(&t));
    let t = Tableau::from_parts(&con, &vec![4, -6, 3], &vec![0], 1, 2).unwrap();
    assert!(!is_all_integral(&t));
    // the objective constant does not matter
    let t = Tableau::from_parts(&con, &vec![4, -6, 2], &vec![0], 1, 2).unwrap();
    assert!(is_all_integral(&t));
}

#[test]
fn unit_columns_have_one_one_and_zeros() {
    let con: Vec<Vec<i64>> = vec![vec![2, 0, 2, 1, 0], vec![0, 2, 2, 0, 0], vec![0, 0, 0, 2, 0]];
    let t = Tableau::from_parts(&con, &vec![1, 1, 1], &vec![0, 0, 0, 0, 0], 0, 2).unwrap();
    assert_eq!(unit_row_of(&t, 0), 0);
    assert_eq!(unit_row_of(&t, 1), 1);
    assert_eq!(unit_row_of(&t, 2), -1);
    assert_eq!(unit_row_of(&t, 3), -1);
    assert_eq!(unit_row_of(&t, 4), -1);
}

#[test]
fn the_first_row_with_a_one_holds_the_variable() {
    let con: Vec<Vec<i64>> = vec![vec![1, 0], vec![2, 0], vec![2, 4]];
    let t = Tableau::from_parts(&con, &vec![1, 1, 1], &vec![0, 0], 0, 2).unwrap();
    assert_eq!(find_one_row(&t, 0), 1);
    assert_eq!(find_one_row(&t, 1), -1);
}

#[test]
fn branch_variable_of_a_single_fractional_row() {
    assert_eq!(get_branch_var(1, &parent()), (0, 1));
    assert_eq!(get_branch_var(3, &parent()), (0, 1));
}

#[test]
fn branch_variable_must_be_a_decision_variable() {
    // no decision variables at all
    assert_eq!(get_branch_var(0, &parent()), (-1, 0));
    // the unit column of the fractional row is column 2, a slack
    let con: Vec<Vec<i64>> = vec![vec![1, 1, 2]];
    let t = Tableau::from_parts(&con, &vec![1], &vec![0, 0, 0], 0, 2).unwrap();
    assert_eq!(get_branch_var(2, &t), (-1, 0));
    assert_eq!(get_branch_var(3, &t), (2, 1));
}

#[test]
fn branch_variable_needs_a_fractional_row() {
    let con: Vec<Vec<i64>> = vec![vec![2, 0], vec![0, 2]];
    let t = Tableau::from_parts(&con, &vec![4, 6], &vec![0, 0], 0, 2).unwrap();
    assert_eq!(get_branch_var(2, &t), (-1, 0));
}

#[test]
fn branch_variable_has_the_smallest_fraction() {
    // fractions 3/4, 1/4 and 1/4: the second row is the first with the least
    let con: Vec<Vec<i64>> = vec![vec![4, 0, 0], vec![0, 4, 0], vec![0, 0, 4]];
    let t = Tableau::from_parts(&con, &vec![3, 5, 1], &vec![0, 0, 0], 0, 4).unwrap();
    assert_eq!(get_branch_var(3, &t), (1, 1));
    // with only the first column a decision variable, its row is taken
    assert_eq!(get_branch_var(1, &t), (0, 3));
}

#[test]
fn branch_variable_is_the_first_unit_column_of_its_row() {
    // columns 1 and 2 are both unit columns of the only row
    let con: Vec<Vec<i64>> = vec![vec![1, 3, 3]];
    let t = Tableau::from_parts(&con, &vec![2], &vec![0, 0, 0], 0, 3).unwrap();
    assert_eq!(get_branch_var(3, &t), (1, 2));
}

#[test]
fn left_child_bounds_the_variable_from_above() {
    let t = parent();
    let child = build_child(&t, 0, 1, true);
    assert_eq!(child.rows(), 3);
    assert_eq!(child.columns(), 4);
    assert_eq!(child.scale(), 2);
    assert_eq!(child.constraint_row(0), vec![2, 1, 0, 0]);
    assert_eq!(child.constraint_row(1), vec![0, 3, 2, 0]);
    // (x1 + slack = 0) less row 0: -y/2 + slack = -1/2
    assert_eq!(child.constraint_row(2), vec![0, -1, 0, 2]);
    assert_eq!(child.rhs_column(), vec![1, 4, -1]);
    assert_eq!(child.objective_row(), vec![0, 1, 0, 0]);
    assert_eq!(child.objective_constant(), 5);
}

#[test]
fn right_child_bounds_the_variable_from_below() {
    let t = parent();
    let child = build_child(&t, 0, 1, false);
    assert_eq!(child.rows(), 3);
    assert_eq!(child.columns(), 4);
    assert_eq!(child.scale(), 2);
    assert_eq!(child.constraint_row(0), vec![2, 1, 0, 0]);
    assert_eq!(child.constraint_row(1), vec![0, 3, 2, 0]);
    // row 0 less (x1 - surplus = 1): y/2 + surplus = 1/2 - 1
    assert_eq!(child.constraint_row(2), vec![0, 1, 0, 2]);
    assert_eq!(child.rhs_column(), vec![1, 4, -1]);
    assert_eq!(child.objective_row(), vec![0, 1, 0, 0]);
    assert_eq!(child.objective_constant(), 5);
}

#[test]
fn children_leave_the_parent_alone() {
    let t = parent();
    let _ = build_child(&t, 0, 1, true);
    assert_eq!(t.rows(), 2);
    assert_eq!(t.columns(), 3);
    assert_eq!(t.constraint_row(0), vec![2, 1, 0]);
    assert_eq!(t.rhs_column(), vec![1, 4]);
}

/// Whether the point `x / q` satisfies every row of the tableau.
fn satisfied(t: &Tableau, x: &[i64], q: i64) -> bool {
    (0..t.rows()).all(|i| {
        let sum: i64 = (0..t.columns()).map(|j| t.coefficient(i, j) * x[j]).sum();
        sum == t.rhs(i) * q
    })
}

#[test]
fn children_split_the_feasible_region_of_the_parent() {
    let t = parent();
    let left = build_child(&t, 0, 1, true);
    let right = build_child(&t, 0, 1, false);
    // x1 = 0, y = 1, s = 1/2 lies in the parent with x1 at the floor: it lies
    // in the left child with the slack zero, and in the right child only with
    // a negative surplus
    assert!(satisfied(&t, &[0, 2, 1], 2));
    assert!(satisfied(&left, &[0, 2, 1, 0], 2));
    assert!(satisfied(&right, &[0, 2, 1, -2], 2));
    for surplus in 0..=8 {
        assert!(!satisfied(&right, &[0, 2, 1, surplus], 2));
    }
    // x1 = 1/2, y = 0, s = 2 lies in the parent strictly between the bounds:
    // it lies in neither child, whatever the new variable is
    assert!(satisfied(&t, &[1, 0, 4], 2));
    for extra in 0..=8 {
        assert!(!satisfied(&left, &[1, 0, 4, extra], 2));
        assert!(!satisfied(&right, &[1, 0, 4, extra], 2));
    }
    assert!(satisfied(&left, &[1, 0, 4, -1], 2));
    assert!(satisfied(&right, &[1, 0, 4, -1], 2));
    // a point outside the parent lies in no child
    assert!(!satisfied(&t, &[0, 2, 2], 2));
    for extra in 0..=8 {
        assert!(!satisfied(&left, &[0, 2, 2, extra], 2));
        assert!(!satisfied(&right, &[0, 2, 2, extra], 2));
    }
}

#[test]
fn the_right_child_takes_the_points_at_the_upper_bound() {
    // x1 + y = 3/2 over the denominator 2, with x1 in column 0
    let con: Vec<Vec<i64>> = vec![vec![2, 2]];
    let t = Tableau::from_parts(&con, &vec![3], &vec![0, 0], 0, 2).unwrap();
    let left = build_child(&t, 0, 1, true);
    let right = build_child(&t, 0, 1, false);
    // x1 = 1, y = 1/2: at the floor of 3/2, so in the left child
    assert!(satisfied(&t, &[2, 1], 2));
    assert!(satisfied(&left, &[2, 1, 0], 2));
    // x1 = 3/2, y = 0: strictly between the floor and the floor plus one
    assert!(satisfied(&t, &[3, 0], 2));
    for extra in 0..=8 {
        assert!(!satisfied(&left, &[3, 0, extra], 2));
        assert!(!satisfied(&right, &[3, 0, extra], 2));
    }
    // x1 = 1/2, y = 1: below the floor, in the left child with slack 1/2
    assert!(satisfied(&left, &[1, 2, 1], 2));
}

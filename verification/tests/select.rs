use bnb_simplex::select::get_dual_enter_var;
use bnb_simplex::select::get_dual_leaving_var;
use bnb_simplex::select::get_primal_enter_var;
use bnb_simplex::select::get_primal_leaving_var;
use bnb_simplex::tableau::Tableau;

fn with_objective(obj: Vec<i64>) -> Tableau {
    let con: Vec<Vec<i64>> = vec![vec![0; obj.len()]];
    Tableau::from_parts(&con, &vec![0], &obj, 0, 1).unwrap()
}

fn with_column(column: Vec<i64>, rhs: Vec<i64>) -> Tableau {
    let con: Vec<Vec<i64>> = column.iter().map(|v| vec![*v]).collect();
    Tableau::from_parts(&con, &rhs, &vec![-1], 0, 1).unwrap()
}

#[test]
fn primal_entering_is_the_most_negative_coefficient() {
    assert_eq!(get_primal_enter_var(&with_objective(vec![-2, -3, -3, -5, -2, -4])), 3);
    assert_eq!(get_primal_enter_var(&with_objective(vec![4, -1, 0])), 1);
}

#[test]
fn primal_entering_takes_the_first_of_equal_coefficients() {
    assert_eq!(get_primal_enter_var(&with_objective(vec![1, -7, 3, -7])), 1);
}

#[test]
fn primal_entering_finds_nothing_without_a_negative_coefficient() {
    assert_eq!(get_primal_enter_var(&with_objective(vec![0, 3, 0])), -1);
    assert_eq!(get_primal_enter_var(&with_objective(Vec::new())), -1);
}

#[test]
fn dual_leaving_is_the_most_negative_right_hand_side() {
    let t = with_column(vec![1, 1, 1, 1], vec![3, -2, -5, -5]);
    assert_eq!(get_dual_leaving_var(&t), 2);
    let t = with_column(vec![1, 1], vec![0, 4]);
    assert_eq!(get_dual_leaving_var(&t), -1);
}

#[test]
fn primal_leaving_is_the_smallest_ratio() {
    // ratios 40/14, 1/1 and 6/3: the second row has the smallest
    let t = with_column(vec![14, 1, 3], vec![40, 1, 6]);
    assert_eq!(get_primal_leaving_var(&t, 0), 1);
}

#[test]
fn primal_leaving_takes_the_first_of_equal_ratios() {
    // ratios 4/2, 6/3 and 2/1 are all two
    let t = with_column(vec![2, 3, 1], vec![4, 6, 2]);
    assert_eq!(get_primal_leaving_var(&t, 0), 0);
    // 9/3 is larger than 4/2 and 2/1
    let t = with_column(vec![3, 2, 1], vec![9, 4, 2]);
    assert_eq!(get_primal_leaving_var(&t, 0), 1);
}

#[test]
fn primal_leaving_passes_over_rows_without_a_positive_ratio() {
    // a negative coefficient, a zero coefficient and a zero right-hand side
    let t = with_column(vec![-1, 0, 5, 2], vec![3, 3, 0, 8]);
    assert_eq!(get_primal_leaving_var(&t, 0), 3);
    let t = with_column(vec![-1, 0, 5], vec![3, 3, 0]);
    assert_eq!(get_primal_leaving_var(&t, 0), -1);
    let t = with_column(vec![5], vec![-3]);
    assert_eq!(get_primal_leaving_var(&t, 0), -1);
}

#[test]
fn primal_leaving_compares_large_numbers_exactly() {
    let big = i64::MAX;
    // big / big is one, (big - 1) / big is a little less
    let t = with_column(vec![big, big], vec![big, big - 1]);
    assert_eq!(get_primal_leaving_var(&t, 0), 1);
}

#[test]
fn dual_entering_is_the_smallest_ratio_among_negative_coefficients() {
    let t = with_objective(vec![6, 2, 9, 1]);
    // ratios 6/3, 2/2 and, with a positive coefficient, none; 1/1 comes later
    assert_eq!(get_dual_enter_var(&t, vec![-3, -2, 4, -1]), 1);
}

#[test]
fn dual_entering_passes_over_zero_ratios() {
    let t = with_objective(vec![0, 5, 0]);
    assert_eq!(get_dual_enter_var(&t, vec![-1, -1, -1]), 1);
    let t = with_objective(vec![0, 0]);
    assert_eq!(get_dual_enter_var(&t, vec![-1, -1]), -1);
}

#[test]
fn dual_entering_finds_nothing_without_a_negative_coefficient() {
    let t = with_objective(vec![1, 2, 3]);
    assert_eq!(get_dual_enter_var(&t, vec![0, 1, 2]), -1);
}

#[test]
fn dual_entering_takes_the_magnitude_of_the_ratio() {
    let t = with_objective(vec![-4, 3]);
    // |-4 / -2| is two, |3 / -1| is three
    assert_eq!(get_dual_enter_var(&t, vec![-2, -1]), 0);
}

#[test]
fn dual_entering_reads_no_further_than_the_objective_row() {
    let t = with_objective(vec![5, 4]);
    assert_eq!(get_dual_enter_var(&t, vec![1, -2, -100]), 1);
    assert_eq!(get_dual_enter_var(&t, vec![-1, i64::MIN, 7]), 1);
}

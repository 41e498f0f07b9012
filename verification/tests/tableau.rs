use bnb_simplex::tableau::Tableau;

fn sample() -> Tableau {
    let con: Vec<Vec<i64>> = vec![vec![1, 2, 3], vec![4, 5, 6]];
    let rhs: Vec<i64> = vec![7, 8];
    let obj: Vec<i64> = vec![-1, -2, -3];
    Tableau::from_parts(&con, &rhs, &obj, 9, 2).unwrap()
}

#[test]
fn from_parts_keeps_every_value() {
    let t = sample();
    assert_eq!(t.rows(), 2);
    assert_eq!(t.columns(), 3);
    assert_eq!(t.scale(), 2);
    assert_eq!(t.coefficient(0, 0), 1);
    assert_eq!(t.coefficient(0, 2), 3);
    assert_eq!(t.coefficient(1, 1), 5);
    assert_eq!(t.rhs(0), 7);
    assert_eq!(t.rhs(1), 8);
    assert_eq!(t.objective(0), -1);
    assert_eq!(t.objective(2), -3);
    assert_eq!(t.objective_constant(), 9);
}

#[test]
fn entry_reads_the_extended_tableau() {
    let t = sample();
    assert_eq!(t.entry(0, 1), 2);
    assert_eq!(t.entry(1, 3), 8);
    assert_eq!(t.entry(2, 0), -1);
    assert_eq!(t.entry(2, 3), 9);
}

#[test]
fn from_parts_refuses_ragged_rows() {
    let con: Vec<Vec<i64>> = vec![vec![1, 2, 3], vec![4, 5]];
    assert!(Tableau::from_parts(&con, &vec![7, 8], &vec![0, 0, 0], 0, 1).is_none());
}

#[test]
fn from_parts_refuses_a_wrong_number_of_right_hand_sides() {
    let con: Vec<Vec<i64>> = vec![vec![1, 2, 3], vec![4, 5, 6]];
    assert!(Tableau::from_parts(&con, &vec![7], &vec![0, 0, 0], 0, 1).is_none());
}

#[test]
fn from_parts_refuses_a_scale_that_is_not_positive() {
    let con: Vec<Vec<i64>> = vec![vec![1]];
    assert!(Tableau::from_parts(&con, &vec![1], &vec![1], 0, 0).is_none());
    assert!(Tableau::from_parts(&con, &vec![1], &vec![1], 0, -3).is_none());
}

#[test]
fn from_parts_refuses_the_least_integer() {
    let least = i64::MIN;
    assert!(Tableau::from_parts(&vec![vec![least]], &vec![1], &vec![1], 0, 1).is_none());
    assert!(Tableau::from_parts(&vec![vec![1]], &vec![least], &vec![1], 0, 1).is_none());
    assert!(Tableau::from_parts(&vec![vec![1]], &vec![1], &vec![least], 0, 1).is_none());
    assert!(Tableau::from_parts(&vec![vec![1]], &vec![1], &vec![1], least, 1).is_none());
    assert!(Tableau::from_parts(&vec![vec![least + 1]], &vec![1], &vec![1], 0, 1).is_some());
}

#[test]
fn from_parts_accepts_an_empty_tableau() {
    let con: Vec<Vec<i64>> = Vec::new();
    let t = Tableau::from_parts(&con, &Vec::new(), &Vec::new(), 5, 1).unwrap();
    assert_eq!(t.rows(), 0);
    assert_eq!(t.columns(), 0);
    assert_eq!(t.objective_constant(), 5);
}

#[test]
fn zero_holds_only_zeros() {
    let t = Tableau::zero(2, 3, 7);
    assert_eq!(t.rows(), 2);
    assert_eq!(t.columns(), 3);
    assert_eq!(t.scale(), 7);
    for i in 0..=2 {
        for j in 0..=3 {
            assert_eq!(t.entry(i, j), 0);
        }
    }
}

#[test]
fn set_entry_changes_one_position() {
    let mut t = sample();
    t.set_entry(1, 2, 60);
    t.set_entry(0, 3, 70);
    t.set_entry(2, 1, -20);
    t.set_entry(2, 3, 90);
    assert_eq!(t.coefficient(1, 2), 60);
    assert_eq!(t.rhs(0), 70);
    assert_eq!(t.objective(1), -20);
    assert_eq!(t.objective_constant(), 90);
    assert_eq!(t.coefficient(0, 0), 1);
    assert_eq!(t.coefficient(1, 1), 5);
    assert_eq!(t.rhs(1), 8);
    assert_eq!(t.objective(0), -1);
}

#[test]
fn set_scale_changes_the_denominator_only() {
    let mut t = sample();
    t.set_scale(10);
    assert_eq!(t.scale(), 10);
    assert_eq!(t.coefficient(1, 0), 4);
    assert_eq!(t.objective_constant(), 9);
}

#[test]
fn duplicate_is_independent_of_its_source() {
    let t = sample();
    let mut copy = t.duplicate();
    assert_eq!(copy.rows(), 2);
    assert_eq!(copy.columns(), 3);
    assert_eq!(copy.coefficient(1, 2), 6);
    copy.set_entry(1, 2, 11);
    assert_eq!(copy.coefficient(1, 2), 11);
    assert_eq!(t.coefficient(1, 2), 6);
}

#[test]
fn extended_adds_a_zero_row_and_a_zero_column() {
    let t = sample();
    let wide = t.extended();
    assert_eq!(wide.rows(), 3);
    assert_eq!(wide.columns(), 4);
    assert_eq!(wide.scale(), 2);
    assert_eq!(wide.constraint_row(0), vec![1, 2, 3, 0]);
    assert_eq!(wide.constraint_row(1), vec![4, 5, 6, 0]);
    assert_eq!(wide.constraint_row(2), vec![0, 0, 0, 0]);
    assert_eq!(wide.rhs_column(), vec![7, 8, 0]);
    assert_eq!(wide.objective_row(), vec![-1, -2, -3, 0]);
    assert_eq!(wide.objective_constant(), 9);
    assert_eq!(t.rows(), 2);
    assert_eq!(t.columns(), 3);
}

#[test]
fn rows_and_columns_come_out_whole() {
    let t = sample();
    assert_eq!(t.constraint_row(0), vec![1, 2, 3]);
    assert_eq!(t.constraint_row(1), vec![4, 5, 6]);
    assert_eq!(t.constraint_column(0), vec![1, 4]);
    assert_eq!(t.constraint_column(2), vec![3, 6]);
    assert_eq!(t.rhs_column(), vec![7, 8]);
    assert_eq!(t.objective_row(), vec![-1, -2, -3]);
}

use bnb_simplex::pivot::pivot_coef;
use bnb_simplex::pivot::SolveError;
use bnb_simplex::registry::VariableInfo;
use bnb_simplex::search::read_values;
use bnb_simplex::simplex::get_optimal_dual;
use bnb_simplex::simplex::get_optimal_primal;
use bnb_simplex::tableau::Tableau;
use bnb_simplex::trace::TraceEvent;

/// The relaxation of the knapsack with these values and weights and room for
/// 40: one row for the weights, one row `x <= 1` for each item, one slack for
/// each row.
fn knapsack_tableau() -> Tableau {
    let values: Vec<i64> = vec![2, 3, 3, 5, 2, 4];
    let weights: Vec<i64> = vec![11, 8, 6, 14, 10, 10];
    let n = values.len();
    let columns = 2 * n + 1;
    let mut con: Vec<Vec<i64>> = vec![vec![0; columns]; n + 1];
    let mut rhs: Vec<i64> = vec![0; n + 1];
    let mut obj: Vec<i64> = vec![0; columns];
    rhs[0] = 40;
    for i in 0..n {
        obj[i] = -values[i];
        rhs[i + 1] = 1;
        con[0][i] = weights[i];
        con[i + 1][i] = 1;
    }
    for i in 0..n + 1 {
        con[i][n + i] = 1;
    }
    Tableau::from_parts(&con, &rhs, &obj, 0, 1).unwrap()
}

/// The same tableau, written out by hand.
fn knapsack_by_hand() -> Tableau {
    let con: Vec<Vec<i64>> = vec![
        vec![11, 8, 6, 14, 10, 10, 1, 0, 0, 0, 0, 0, 0],
        vec![1, 0, 0, 0, 0, 0, 0, 1, 0, 0, 0, 0, 0],
        vec![0, 1, 0, 0, 0, 0, 0, 0, 1, 0, 0, 0, 0],
        vec![0, 0, 1, 0, 0, 0, 0, 0, 0, 1, 0, 0, 0],
        vec![0, 0, 0, 1, 0, 0, 0, 0, 0, 0, 1, 0, 0],
        vec![0, 0, 0, 0, 1, 0, 0, 0, 0, 0, 0, 1, 0],
        vec![0, 0, 0, 0, 0, 1, 0, 0, 0, 0, 0, 0, 1],
    ];
    let rhs: Vec<i64> = vec![40, 1, 1, 1, 1, 1, 1];
    let obj: Vec<i64> = vec![-2, -3, -3, -5, -2, -4, 0, 0, 0, 0, 0, 0, 0];
    Tableau::from_parts(&con, &rhs, &obj, 0, 1).unwrap()
}

fn names(kinds: &[&str]) -> Vec<VariableInfo> {
    let mut map: Vec<VariableInfo> = Vec::new();
    let mut decisions = 0;
    for (i, kind) in kinds.iter().enumerate() {
        if *kind == "x" {
            map.push(VariableInfo::new(kind, decisions));
            decisions += 1;
        } else {
            map.push(VariableInfo::new(kind, i - decisions));
        }
    }
    map
}

fn same(a: &Tableau, b: &Tableau) -> bool {
    a.rows() == b.rows()
        && a.columns() == b.columns()
        && a.scale() == b.scale()
        && (0..=a.rows()).all(|i| (0..=a.columns()).all(|j| a.entry(i, j) == b.entry(i, j)))
}

#[test]
fn knapsack_relaxation_reaches_its_optimum() {
    let mut t = knapsack_tableau();
    assert_eq!(get_optimal_primal(&mut t, 100), Ok(()));
    // items 2, 3, 4 and 6 whole and a fifth of item 5: 3 + 3 + 5 + 4 + 2/5
    assert_eq!(t.objective_constant() * 5, 77 * t.scale());
    assert_eq!(t.scale(), 10);
    assert_eq!(t.objective_constant(), 154);
    let map = names(&["x", "x", "x", "x", "x", "x", "s", "s", "s", "s", "s", "s", "s"]);
    let values = read_values(&t, &map);
    let found: Vec<i64> = values.iter().take(6).map(|v| v.value).collect();
    assert_eq!(found, vec![0, 10, 10, 10, 2, 10]);
    assert_eq!(values[4].variable.name(), "x5");
}

#[test]
fn knapsack_built_and_written_by_hand_agree() {
    let mut built = knapsack_tableau();
    let mut written = knapsack_by_hand();
    assert!(same(&built, &written));
    assert_eq!(get_optimal_primal(&mut built, 100), Ok(()));
    assert_eq!(get_optimal_primal(&mut written, 100), Ok(()));
    assert!(same(&built, &written));
}

#[test]
fn primal_ends_without_negative_objective_coefficients() {
    let mut t = knapsack_tableau();
    assert_eq!(get_optimal_primal(&mut t, 100), Ok(()));
    for j in 0..t.columns() {
        assert!(t.objective(j) >= 0);
    }
    for i in 0..t.rows() {
        assert!(t.rhs(i) >= 0);
    }
}

#[test]
fn no_pivot_improves_an_optimal_tableau() {
    let mut t = knapsack_tableau();
    assert_eq!(get_optimal_primal(&mut t, 100), Ok(()));
    let best = (t.objective_constant() as i128, t.scale() as i128);
    let mut tried = 0;
    for r in 0..t.rows() {
        for e in 0..t.columns() {
            if t.coefficient(r, e) > 0 && t.rhs(r) >= 0 {
                let mut next = t.duplicate();
                assert_eq!(pivot_coef(&mut next, e as i32, r as i32), Ok(()));
                let after = (next.objective_constant() as i128, next.scale() as i128);
                assert!(after.0 * best.1 <= best.0 * after.1);
                tried += 1;
            }
        }
    }
    assert!(tried > 0);
}

#[test]
fn primal_leaves_an_optimal_tableau_alone() {
    let con: Vec<Vec<i64>> = vec![vec![1, 2], vec![3, 4]];
    let mut t = Tableau::from_parts(&con, &vec![5, 6], &vec![0, 7], 8, 3).unwrap();
    assert_eq!(get_optimal_primal(&mut t, 0), Ok(()));
    assert_eq!(t.scale(), 3);
    assert_eq!(t.constraint_row(0), vec![1, 2]);
    assert_eq!(t.constraint_row(1), vec![3, 4]);
    assert_eq!(t.rhs_column(), vec![5, 6]);
    assert_eq!(t.objective_row(), vec![0, 7]);
    assert_eq!(t.objective_constant(), 8);
}

#[test]
fn primal_reports_an_unbounded_objective() {
    let con: Vec<Vec<i64>> = vec![vec![-1, 1], vec![0, 1]];
    let mut t = Tableau::from_parts(&con, &vec![1, 2], &vec![-1, 0], 0, 1).unwrap();
    assert_eq!(get_optimal_primal(&mut t, 10), Err(SolveError::Unbounded));
    assert_eq!(t.constraint_row(0), vec![-1, 1]);
    assert_eq!(t.rhs_column(), vec![1, 2]);
}

#[test]
fn primal_stops_at_the_pivot_ceiling() {
    let mut t = knapsack_tableau();
    assert_eq!(get_optimal_primal(&mut t, 1), Err(SolveError::CyclingSuspected));
    // one pivot was made: on item 4, the most negative coefficient
    assert_eq!(t.objective(3), 0);
    assert_eq!(t.objective_constant(), 5 * t.scale());
    let mut t = knapsack_tableau();
    assert_eq!(get_optimal_primal(&mut t, 0), Err(SolveError::CyclingSuspected));
    assert!(same(&t, &knapsack_tableau()));
}

#[test]
fn primal_reports_overflow() {
    let big = i64::MAX;
    let con: Vec<Vec<i64>> = vec![vec![3, big], vec![big, 2]];
    let mut t = Tableau::from_parts(&con, &vec![1, big], &vec![-1, 0], 0, 1).unwrap();
    assert_eq!(get_optimal_primal(&mut t, 10), Err(SolveError::Overflow));
    assert_eq!(t.constraint_row(0), vec![3, big]);
}

#[test]
fn dual_restores_feasibility() {
    let con: Vec<Vec<i64>> = vec![vec![-1, -1, 1]];
    let mut t = Tableau::from_parts(&con, &vec![-2], &vec![2, 3, 0], 0, 1).unwrap();
    let mut trace: Vec<TraceEvent> = Vec::new();
    let map = names(&["x", "x", "s"]);
    assert_eq!(get_optimal_dual(&mut t, &mut trace, &map, 10), Ok(()));
    assert_eq!(t.scale(), 1);
    assert_eq!(t.constraint_row(0), vec![1, 1, -1]);
    assert_eq!(t.rhs_column(), vec![2]);
    assert_eq!(t.objective_row(), vec![0, 1, 2]);
    assert_eq!(t.objective_constant(), -4);
    assert_eq!(trace.len(), 1);
    match &trace[0] {
        TraceEvent::DualStart { variable, leaving_row } => {
            assert_eq!(variable.name(), "x1");
            assert_eq!(*leaving_row, 1);
        }
        other => panic!("unexpected event {:?}", other),
    }
}

#[test]
fn dual_reports_an_infeasible_row() {
    let con: Vec<Vec<i64>> = vec![vec![1, 0], vec![1, 1]];
    let mut t = Tableau::from_parts(&con, &vec![3, -1], &vec![1, 1], 0, 1).unwrap();
    let mut trace: Vec<TraceEvent> = Vec::new();
    let map = names(&["x", "x"]);
    assert_eq!(get_optimal_dual(&mut t, &mut trace, &map, 10), Err(SolveError::Infeasible));
    assert_eq!(trace.len(), 1);
    match &trace[0] {
        TraceEvent::DualStuck { leaving_row } => assert_eq!(*leaving_row, 2),
        other => panic!("unexpected event {:?}", other),
    }
    assert_eq!(t.rhs_column(), vec![3, -1]);
}

#[test]
fn dual_reports_its_first_pivot_only() {
    // two dual pivots are needed; only the first is reported
    let con: Vec<Vec<i64>> = vec![vec![-1, 0, 1, 0], vec![0, -1, 0, 1]];
    let mut t = Tableau::from_parts(&con, &vec![-3, -2], &vec![1, 1, 0, 0], 0, 1).unwrap();
    let mut trace: Vec<TraceEvent> = Vec::new();
    let map = names(&["x", "x", "s", "s"]);
    assert_eq!(get_optimal_dual(&mut t, &mut trace, &map, 10), Ok(()));
    assert_eq!(t.rhs_column(), vec![3, 2]);
    assert_eq!(t.objective_constant(), -5);
    assert_eq!(trace.len(), 1);
    match &trace[0] {
        TraceEvent::DualStart { variable, leaving_row } => {
            assert_eq!(variable.name(), "x1");
            assert_eq!(*leaving_row, 1);
        }
        other => panic!("unexpected event {:?}", other),
    }
}

#[test]
fn dual_accepts_a_right_hand_side_within_the_tolerance() {
    let million = 1_000_000;
    let con: Vec<Vec<i64>> = vec![vec![million]];
    let mut t = Tableau::from_parts(&con, &vec![-1], &vec![0], 0, million).unwrap();
    let mut trace: Vec<TraceEvent> = Vec::new();
    let map = names(&["x"]);
    assert_eq!(get_optimal_dual(&mut t, &mut trace, &map, 10), Ok(()));
    assert!(trace.is_empty());
    assert_eq!(t.rhs_column(), vec![-1]);
    let mut t = Tableau::from_parts(&con, &vec![-2], &vec![0], 0, million).unwrap();
    assert_eq!(get_optimal_dual(&mut t, &mut trace, &map, 10), Err(SolveError::Infeasible));
    assert_eq!(trace.len(), 1);
}

#[test]
fn dual_stops_at_the_pivot_ceiling() {
    let con: Vec<Vec<i64>> = vec![vec![-1, -1, 1]];
    let mut t = Tableau::from_parts(&con, &vec![-2], &vec![2, 3, 0], 0, 1).unwrap();
    let mut trace: Vec<TraceEvent> = Vec::new();
    let map = names(&["x", "x", "s"]);
    assert_eq!(get_optimal_dual(&mut t, &mut trace, &map, 0), Err(SolveError::CyclingSuspected));
    assert_eq!(t.rhs_column(), vec![-2]);
    // no pivot was made, so none is reported
    assert!(trace.is_empty());
}

#[test]
fn dual_names_the_row_it_fails_on_after_a_pivot() {
    let con: Vec<Vec<i64>> = vec![vec![-1, 0], vec![1, 1]];
    let mut t = Tableau::from_parts(&con, &vec![-2, -1], &vec![1, 1], 0, 1).unwrap();
    let mut trace: Vec<TraceEvent> = Vec::new();
    let map = names(&["x", "x"]);
    assert_eq!(get_optimal_dual(&mut t, &mut trace, &map, 10), Err(SolveError::Infeasible));
    // the pivot on row 1 and column 1 leaves (1, 0 | 2) and (0, 1 | -3)
    assert_eq!(t.constraint_row(0), vec![1, 0]);
    assert_eq!(t.constraint_row(1), vec![0, 1]);
    assert_eq!(t.rhs_column(), vec![2, -3]);
    assert_eq!(trace.len(), 2);
    match &trace[0] {
        TraceEvent::DualStart { variable, leaving_row } => {
            assert_eq!(variable.name(), "x1");
            assert_eq!(*leaving_row, 1);
        }
        other => panic!("unexpected event {:?}", other),
    }
    match &trace[1] {
        TraceEvent::DualStuck { leaving_row } => assert_eq!(*leaving_row, 2),
        other => panic!("unexpected event {:?}", other),
    }
}

#[test]
fn dual_reports_no_pivot_that_overflows() {
    let big = i64::MAX;
    let con: Vec<Vec<i64>> = vec![vec![-3, big], vec![big, 2]];
    let mut t = Tableau::from_parts(&con, &vec![-1, 1], &vec![1, 0], 0, 1).unwrap();
    let mut trace: Vec<TraceEvent> = Vec::new();
    let map = names(&["x", "x"]);
    assert_eq!(get_optimal_dual(&mut t, &mut trace, &map, 10), Err(SolveError::Overflow));
    assert!(trace.is_empty());
    assert_eq!(t.rhs_column(), vec![-1, 1]);
}

#[test]
fn primal_phase_on_regular_columns_ends_feasible_and_optimal() {
    // The dual pivot passes over the degenerate column 1 and leaves its
    // objective coefficient negative; the one primal pivot that follows meets
    // positive right-hand sides only.
    let con: Vec<Vec<i64>> = vec![vec![-1, -1, 0], vec![0, 1, 1]];
    let mut t = Tableau::from_parts(&con, &vec![-1, 5], &vec![1, 0, 0], 0, 1).unwrap();
    let mut trace: Vec<TraceEvent> = Vec::new();
    let map = names(&["x", "x", "s"]);
    assert_eq!(get_optimal_dual(&mut t, &mut trace, &map, 10), Ok(()));
    assert_eq!(t.constraint_row(0), vec![1, 1, 0]);
    assert_eq!(t.constraint_row(1), vec![-1, 0, 1]);
    assert_eq!(t.rhs_column(), vec![1, 4]);
    assert_eq!(t.objective_row(), vec![1, 0, 0]);
    assert_eq!(t.objective_constant(), 0);
}

#[test]
fn dual_then_primal_ends_feasible_and_optimal_on_a_regular_tableau() {
    let con: Vec<Vec<i64>> = vec![vec![-2, -1, 1, 0], vec![1, 3, 0, 1]];
    let mut t = Tableau::from_parts(&con, &vec![-4, 9], &vec![3, 2, 0, 0], 0, 1).unwrap();
    let mut trace: Vec<TraceEvent> = Vec::new();
    let map = names(&["x", "x", "s", "s"]);
    assert_eq!(get_optimal_dual(&mut t, &mut trace, &map, 10), Ok(()));
    for i in 0..t.rows() {
        assert!(t.rhs(i) >= 0);
    }
    for j in 0..t.columns() {
        assert!(t.objective(j) >= 0);
    }
    // the ratios are 3/2 and 2/1: column 0 enters, and x1 = 2
    assert_eq!(t.rhs(0), 2 * t.scale());
    assert_eq!(t.objective_constant(), -6 * t.scale());
}

#[test]
fn dual_ratio_test_passes_over_a_degenerate_column() {
    // Column 1 has a negative coefficient in the leaving row and a zero
    // objective coefficient, so the ratio test passes over it; the pivot on
    // column 0 then makes its objective coefficient negative, and the primal
    // pivot that follows drives the second right-hand side below zero.
    let con: Vec<Vec<i64>> = vec![vec![-1, -1, 0], vec![0, 1, 1]];
    let mut t = Tableau::from_parts(&con, &vec![-1, 0], &vec![1, 0, 0], 0, 1).unwrap();
    let mut trace: Vec<TraceEvent> = Vec::new();
    let map = names(&["x", "x", "s"]);
    assert_eq!(get_optimal_dual(&mut t, &mut trace, &map, 10), Ok(()));
    assert_eq!(t.constraint_row(0), vec![1, 1, 0]);
    assert_eq!(t.constraint_row(1), vec![-1, 0, 1]);
    assert_eq!(t.rhs_column(), vec![1, -1]);
    assert_eq!(t.objective_row(), vec![1, 0, 0]);
    assert_eq!(t.objective_constant(), 0);
}

#[test]
fn values_are_read_within_the_tolerance() {
    let d = 10_000_000;
    // column 0: one and a millionth of a tenth, and nine tenths of a millionth
    // column 1: one, and eleven tenths of a millionth
    // column 2: two entries that read as one
    // column 3: nothing that reads as one
    let con: Vec<Vec<i64>> = vec![vec![d + 1, d, d, 0], vec![9, 11, d - 1, -9]];
    let t = Tableau::from_parts(&con, &vec![3 * d, 4 * d], &vec![0, 0, 0, 0], 0, d).unwrap();
    let map = names(&["x", "x", "x", "x"]);
    let values = read_values(&t, &map);
    let found: Vec<i64> = values.iter().map(|v| v.value).collect();
    assert_eq!(found, vec![3 * d, 0, 0, 0]);
    let labels: Vec<String> = values.iter().map(|v| v.variable.name()).collect();
    assert_eq!(labels, vec!["x1", "x2", "x3", "x4"]);
}

#[test]
fn values_read_the_row_of_the_unit_entry() {
    let con: Vec<Vec<i64>> = vec![vec![0, 2, 1], vec![2, 0, 1]];
    let t = Tableau::from_parts(&con, &vec![5, 7], &vec![0, 0, 0], 0, 2).unwrap();
    let map = names(&["x", "x", "s"]);
    let found: Vec<i64> = read_values(&t, &map).iter().map(|v| v.value).collect();
    assert_eq!(found, vec![7, 5, 0]);
}

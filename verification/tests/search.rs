use bnb_simplex::branch::get_branch_var;
use bnb_simplex::pivot::SolveError;
use bnb_simplex::registry::VariableInfo;
use bnb_simplex::search::branch_and_bound;
use bnb_simplex::search::create_left_branch;
use bnb_simplex::search::create_right_branch;
use bnb_simplex::search::process_node;
use bnb_simplex::search::Problem;
use bnb_simplex::simplex::get_optimal_primal;
use bnb_simplex::tableau::Tableau;
use bnb_simplex::trace::record;
use bnb_simplex::trace::TraceEvent;
use std::collections::VecDeque;

fn knapsack_root() -> Tableau {
    let values: Vec<i64> = vec![2, 3, 3, 5, 2, 4];
    let weights: Vec<i64> = vec![11, 8, 6, 14, 10, 10];
    let n = values.len();
    let columns = 2 * n + 1;
    let mut con: Vec<Vec<i64>> = vec![vec![0; columns]; n + 1];
    let mut rhs: Vec<i64> = vec![0; n + 1];
    let mut obj: Vec<i64> = vec![0; columns];
    rhs[0] = 40;
    for i in 0..n {
        obj[i] = -values[i];
        rhs[i + 1] = 1;
        con[0][i] = weights[i];
        con[i + 1][i] = 1;
    }
    for i in 0..n + 1 {
        con[i][n + i] = 1;
    }
    let mut t = Tableau::from_parts(&con, &rhs, &obj, 0, 1).unwrap();
    assert_eq!(get_optimal_primal(&mut t, 100), Ok(()));
    t
}

fn knapsack_names() -> Vec<VariableInfo> {
    let mut map: Vec<VariableInfo> = Vec::new();
    for i in 0..6 {
        map.push(VariableInfo::new("x", i));
    }
    for i in 0..7 {
        map.push(VariableInfo::new("s", i));
    }
    map
}

fn integral_root() -> Tableau {
    let con: Vec<Vec<i64>> = vec![vec![1, 0, 2], vec![0, 1, 3]];
    Tableau::from_parts(&con, &vec![3, 4], &vec![0, 0, 1], 7, 1).unwrap()
}

fn small_names() -> Vec<VariableInfo> {
    vec![VariableInfo::new("x", 0), VariableInfo::new("x", 1), VariableInfo::new("s", 0)]
}

#[test]
fn knapsack_search_ends_and_finds_the_best_packing() {
    let root = knapsack_root();
    let bound = (root.objective_constant() as i128, root.scale() as i128);
    let trace = branch_and_bound(6, &root, knapsack_names(), 1000, 100);
    assert!(matches!(trace.last(), Some(TraceEvent::Completed)));
    let mut leaves: Vec<(i128, i128)> = Vec::new();
    for event in trace.iter() {
        if let TraceEvent::Integral { objective, scale, .. } = event {
            leaves.push((*objective as i128, *scale as i128));
        }
    }
    assert!(!leaves.is_empty());
    for (objective, scale) in leaves.iter() {
        // no leaf is better than the relaxation, 77/5
        assert!(objective * bound.1 <= bound.0 * scale);
        assert!(objective * 5 <= 77 * scale);
    }
    // items 2, 3, 4 and 6 weigh 38 and are worth 15; nothing is worth more
    assert!(leaves.iter().any(|(objective, scale)| *objective == 15 * scale));
    assert!(leaves.iter().all(|(objective, scale)| *objective <= 15 * scale));
}

#[test]
fn knapsack_search_starts_with_the_fractional_item() {
    let root = knapsack_root();
    let trace = branch_and_bound(6, &root, knapsack_names(), 1000, 100);
    match &trace[0] {
        TraceEvent::Processing { section } => assert_eq!(section, "0"),
        other => panic!("unexpected event {:?}", other),
    }
    match &trace[1] {
        TraceEvent::Branching { section, column, fraction, scale } => {
            assert_eq!(section, "0");
            // item 5 is packed to a fifth
            assert_eq!(*column, 4);
            assert_eq!(*fraction * 5, *scale);
        }
        other => panic!("unexpected event {:?}", other),
    }
    match &trace[2] {
        TraceEvent::Creating { section, variable, upper, bound } => {
            assert_eq!(section, "0.1");
            assert_eq!(variable.name(), "x5");
            assert!(*upper);
            assert_eq!(*bound, 0);
        }
        other => panic!("unexpected event {:?}", other),
    }
    assert!(matches!(&trace[3], TraceEvent::DualStart { leaving_row: 8, .. }));
    match &trace[4] {
        TraceEvent::Solved { section, objective, scale, values } => {
            assert_eq!(section, "0.1");
            // without item 5: items 2, 3, 4, 6 and 2/11 of item 1
            assert_eq!(*objective * 11, 169 * *scale);
            assert_eq!(values.len(), 14);
            assert_eq!(values[0].variable.name(), "x1");
            assert_eq!(values[0].value * 11, 2 * *scale);
            assert_eq!(values[4].value, 0);
            assert_eq!(values[13].variable.name(), "s8");
        }
        other => panic!("unexpected event {:?}", other),
    }
    match &trace[5] {
        TraceEvent::Creating { section, variable, upper, bound } => {
            assert_eq!(section, "0.2");
            assert_eq!(variable.name(), "x5");
            assert!(!*upper);
            assert_eq!(*bound, 1);
        }
        other => panic!("unexpected event {:?}", other),
    }
    assert!(matches!(&trace[6], TraceEvent::DualStart { leaving_row: 8, .. }));
    match &trace[7] {
        TraceEvent::Solved { section, objective, scale, values } => {
            assert_eq!(section, "0.2");
            // with item 5: items 3, 6, 2 and 6/14 of item 4
            assert_eq!(*objective * 7, 99 * *scale);
            assert_eq!(values[4].value, *scale);
            assert_eq!(values[3].value * 7, 3 * *scale);
            assert_eq!(values[13].variable.name(), "e8");
        }
        other => panic!("unexpected event {:?}", other),
    }
    assert!(matches!(&trace[8], TraceEvent::Closed));
    match &trace[9] {
        TraceEvent::Processing { section } => assert_eq!(section, "0.1"),
        other => panic!("unexpected event {:?}", other),
    }
}

#[test]
fn integral_root_is_the_only_node() {
    let root = integral_root();
    let trace = branch_and_bound(2, &root, small_names(), 10, 10);
    assert_eq!(trace.len(), 3);
    match &trace[0] {
        TraceEvent::Processing { section } => assert_eq!(section, "0"),
        other => panic!("unexpected event {:?}", other),
    }
    match &trace[1] {
        TraceEvent::Integral { section, objective, scale } => {
            assert_eq!(section, "0");
            assert_eq!(*objective, 7);
            assert_eq!(*scale, 1);
        }
        other => panic!("unexpected event {:?}", other),
    }
    assert!(matches!(&trace[2], TraceEvent::Completed));
}

#[test]
fn searching_an_integral_root_again_branches_nowhere() {
    let root = integral_root();
    for _ in 0..2 {
        let trace = branch_and_bound(2, &root, small_names(), 10, 10);
        let branchings = trace.iter().filter(|e| matches!(e, TraceEvent::Branching { .. })).count();
        let terminals = trace
            .iter()
            .filter(|e| matches!(e, TraceEvent::Integral { .. } | TraceEvent::Unbranchable { .. }))
            .count();
        assert_eq!(branchings, 0);
        assert_eq!(terminals, 1);
    }
    assert_eq!(root.rhs_column(), vec![3, 4]);
}

#[test]
fn search_stops_at_the_node_ceiling() {
    let root = knapsack_root();
    let trace = branch_and_bound(6, &root, knapsack_names(), 0, 100);
    assert_eq!(trace.len(), 1);
    assert!(matches!(&trace[0], TraceEvent::Interrupted));
    let trace = branch_and_bound(6, &root, knapsack_names(), 1, 100);
    assert!(matches!(trace.last(), Some(TraceEvent::Interrupted)));
    let processed = trace.iter().filter(|e| matches!(e, TraceEvent::Processing { .. })).count();
    assert_eq!(processed, 1);
}

#[test]
fn a_fractional_slack_row_cannot_be_branched_on() {
    // the only fractional row holds the slack
    let con: Vec<Vec<i64>> = vec![vec![2, 0, 0], vec![0, 1, 2]];
    let root = Tableau::from_parts(&con, &vec![4, 1], &vec![0, 1, 0], 3, 2).unwrap();
    let names = vec![VariableInfo::new("x", 0), VariableInfo::new("x", 1), VariableInfo::new("s", 0)];
    let trace = branch_and_bound(2, &root, names, 10, 10);
    assert_eq!(trace.len(), 3);
    match &trace[1] {
        TraceEvent::Unbranchable { section, objective, scale } => {
            assert_eq!(section, "0");
            assert_eq!(*objective, 3);
            assert_eq!(*scale, 2);
        }
        other => panic!("unexpected event {:?}", other),
    }
    assert!(matches!(&trace[2], TraceEvent::Completed));
}

#[test]
fn a_child_that_cannot_be_solved_is_pruned() {
    // x1 = 1/2 in a row of its own: x1 <= 0 and x1 >= 1 are both infeasible
    let con: Vec<Vec<i64>> = vec![vec![2]];
    let root = Tableau::from_parts(&con, &vec![1], &vec![0], 0, 2).unwrap();
    let trace = branch_and_bound(1, &root, vec![VariableInfo::new("x", 0)], 10, 10);
    let kinds: Vec<&str> = trace
        .iter()
        .map(|e| match e {
            TraceEvent::Processing { .. } => "processing",
            TraceEvent::Branching { .. } => "branching",
            TraceEvent::Creating { .. } => "creating",
            TraceEvent::DualStuck { .. } => "stuck",
            TraceEvent::Pruned { .. } => "pruned",
            TraceEvent::Closed => "closed",
            TraceEvent::Completed => "completed",
            _ => "other",
        })
        .collect();
    assert_eq!(
        kinds,
        vec![
            "processing",
            "branching",
            "creating",
            "stuck",
            "pruned",
            "creating",
            "stuck",
            "pruned",
            "closed",
            "completed"
        ]
    );
    match &trace[4] {
        TraceEvent::Pruned { section, reason } => {
            assert_eq!(section, "0.1");
            assert_eq!(*reason, SolveError::Infeasible);
        }
        other => panic!("unexpected event {:?}", other),
    }
    match &trace[7] {
        TraceEvent::Pruned { section, reason } => {
            assert_eq!(section, "0.2");
            assert_eq!(*reason, SolveError::Infeasible);
        }
        other => panic!("unexpected event {:?}", other),
    }
    match &trace[3] {
        TraceEvent::DualStuck { leaving_row } => assert_eq!(*leaving_row, 2),
        other => panic!("unexpected event {:?}", other),
    }
}

#[test]
fn children_of_the_knapsack_root() {
    let parent = Problem {
        var_count: 6,
        tableau: knapsack_root(),
        section: String::from("0"),
        variable_map: knapsack_names(),
    };
    let (column, fraction) = get_branch_var(6, &parent.tableau);
    assert_eq!((column, fraction), (4, 2));
    let mut trace: Vec<TraceEvent> = Vec::new();
    let left = create_left_branch(&parent, column, fraction, 7, &mut trace, 100).unwrap();
    assert_eq!(left.section, "0.1");
    assert_eq!(left.var_count, 7);
    assert_eq!(left.tableau.rows(), 8);
    assert_eq!(left.tableau.columns(), 14);
    assert_eq!(left.variable_map.len(), 14);
    assert_eq!(left.variable_map[13].name(), "s8");
    assert_eq!(left.tableau.objective_constant() * 11, 169 * left.tableau.scale());
    assert_eq!(trace.len(), 2);
    let right = create_right_branch(&parent, column, fraction, 7, &mut trace, 100).unwrap();
    assert_eq!(right.section, "0.2");
    assert_eq!(right.variable_map[13].name(), "e8");
    assert_eq!(right.tableau.objective_constant() * 7, 99 * right.tableau.scale());
    assert_eq!(trace.len(), 4);
    assert!(matches!(&trace[3], TraceEvent::Solved { .. }));
    // the parent is as it was
    assert_eq!(parent.tableau.rows(), 7);
    assert_eq!(parent.variable_map.len(), 13);
}

#[test]
fn a_child_stopped_at_the_pivot_ceiling_is_pruned() {
    let parent = Problem {
        var_count: 6,
        tableau: knapsack_root(),
        section: String::from("0"),
        variable_map: knapsack_names(),
    };
    let mut trace: Vec<TraceEvent> = Vec::new();
    assert!(create_left_branch(&parent, 4, 2, 7, &mut trace, 0).is_none());
    assert_eq!(trace.len(), 1);
    match &trace[0] {
        TraceEvent::Pruned { section, reason } => {
            assert_eq!(section, "0.1");
            assert_eq!(*reason, SolveError::CyclingSuspected);
        }
        other => panic!("unexpected event {:?}", other),
    }
}

#[test]
fn processing_a_node_queues_its_children_in_order() {
    let problem = Problem {
        var_count: 6,
        tableau: knapsack_root(),
        section: String::from("0"),
        variable_map: knapsack_names(),
    };
    let mut trace: Vec<TraceEvent> = Vec::new();
    let mut queue: VecDeque<Problem> = VecDeque::new();
    process_node(&problem, &mut trace, &mut queue, 100);
    assert_eq!(queue.len(), 2);
    assert_eq!(queue[0].section, "0.1");
    assert_eq!(queue[1].section, "0.2");
    assert_eq!(queue[0].var_count, 7);
    assert_eq!(trace.len(), 9);
    assert!(matches!(&trace[8], TraceEvent::Closed));
}

#[test]
fn record_appends_to_the_trace() {
    let mut trace: Vec<TraceEvent> = Vec::new();
    record(&mut trace, TraceEvent::Closed);
    record(&mut trace, TraceEvent::Completed);
    assert_eq!(trace.len(), 2);
    assert!(matches!(&trace[0], TraceEvent::Closed));
    assert!(matches!(&trace[1], TraceEvent::Completed));
}

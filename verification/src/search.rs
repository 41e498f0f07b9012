//! Branch and bound: the breadth-first search through the tree of bounded
//! subproblems, and what it reports of every node.

use vstd::prelude::*;
use std::collections::VecDeque;
use vstd::string::StringExecFns;
use crate::arith::magnitude;
use crate::branch::all_integral;
use crate::branch::branch_choice;
use crate::branch::branch_row;
use crate::branch::build_child;
use crate::branch::can_branch;
use crate::branch::child_tableau;
use crate::branch::get_branch_var;
use crate::branch::is_all_integral;
use crate::branch::lemma_first_one_row_unique;
use crate::registry::count_decisions;
use crate::registry::decision_count;
use crate::registry::extend_registry;
use crate::registry::extended_registry;
use crate::registry::registry_view;
use crate::registry::slack_kind;
use crate::registry::surplus_kind;
use crate::registry::VariableInfo;
use crate::registry::VariableModel;
use crate::simplex::dual_log;
use crate::simplex::dual_solve;
use crate::simplex::get_optimal_dual;
use crate::simplex::TOLERANCE_PARTS;
use crate::tableau::Tableau;
use crate::tableau::TableauModel;
use crate::tableau::MAX_DIMENSION;
use crate::tableau::MAX_MAGNITUDE;
use crate::trace::record;
use crate::trace::trace_view;
use crate::trace::values_view;
use crate::trace::EventModel;
use crate::trace::TraceEvent;
use crate::trace::ValueModel;
use crate::trace::VariableValue;

verus! {

/// The numerator `v` stands for a value within the tolerance of one.
pub open spec fn near_one(m: TableauModel, v: int) -> bool {
    magnitude(v - m.d) * TOLERANCE_PARTS < m.d
}

/// The numerator `v` stands for a value farther from zero than the
/// tolerance.
pub open spec fn far_from_zero(m: TableauModel, v: int) -> bool {
    magnitude(v) * TOLERANCE_PARTS > m.d
}

/// Column `j` reads as the unit column of row `r`: its element in row `r` is
/// one within the tolerance, and every other element is zero within the
/// tolerance.
pub open spec fn reads_basic(m: TableauModel, j: int, r: int) -> bool {
    &&& 0 <= r < m.rows()
    &&& near_one(m, m.a[r][j])
    &&& forall|i: int|
        0 <= i < m.rows() && i != r ==> !near_one(m, #[trigger] m.a[i][j]) && !far_from_zero(m, m.a[i][j])
}

/// The row of which column `j` reads as the unit column, or `-1`.
pub open spec fn basic_row(m: TableauModel, j: int) -> int {
    if exists|r: int| reads_basic(m, j, r) {
        choose|r: int| reads_basic(m, j, r)
    } else {
        -1
    }
}

/// The value of the variable of column `j`, as a numerator: the right-hand
/// side of the row of which the column reads as the unit column, and zero
/// where there is no such row.
pub open spec fn column_value(m: TableauModel, j: int) -> int {
    if basic_row(m, j) >= 0 {
        m.b[basic_row(m, j)]
    } else {
        0
    }
}

/// The values of all variables of a tableau, each with its entry of the
/// registry.
pub open spec fn variable_values(m: TableauModel, registry: Seq<VariableModel>) -> Seq<ValueModel> {
    Seq::new(m.cols(), |j: int| ValueModel { variable: registry[j], value: column_value(m, j) })
}

/// No column reads as the unit column of two rows.
pub proof fn lemma_basic_row_unique(m: TableauModel, j: int, r: int)
    requires
        reads_basic(m, j, r),
    ensures
        basic_row(m, j) == r,
{
    let other = basic_row(m, j);
    assert(reads_basic(m, j, other));
    if other != r {
        assert(!near_one(m, m.a[other][j]));
    }
}

/// The row of which column `j` reads as the unit column, or `-1`.
fn find_basic_row(t: &Tableau, j: usize) -> (row: i32)
    requires
        t.wf(),
        j < t@.cols(),
    ensures
        row == basic_row(t@, j as int),
        -1 <= row < t@.rows(),
{
    proof {
        t.lemma_wf();
    }
    let ghost m = t@;
    let rows = t.rows();
    let scale = t.scale() as i128;
    let mut found: i32 = -1;
    let mut i: usize = 0;
    while i < rows
        invariant
            t.wf(),
            m == t@,
            j < m.cols(),
            rows == m.rows(),
            rows <= MAX_DIMENSION,
            scale == m.d,
            0 < scale <= MAX_MAGNITUDE,
            i <= rows,
            -1 <= found < i,
            found >= 0 ==> near_one(m, m.a[found as int][j as int]),
            forall|k: int|
                0 <= k < i && k != found ==> !near_one(m, #[trigger] m.a[k][j as int]) && !far_from_zero(
                    m,
                    m.a[k][j as int],
                ),
        decreases rows - i,
    {
        let v = t.coefficient(i, j) as i128;
        let gap: i128 = if v - scale < 0 {
            scale - v
        } else {
            v - scale
        };
        let size: i128 = if v < 0 {
            -v
        } else {
            v
        };
        if gap * (TOLERANCE_PARTS as i128) < scale {
            if found >= 0 {
                assert forall|r: int| !reads_basic(m, j as int, r) by {
                    if reads_basic(m, j as int, r) {
                        if r == i {
                            assert(!near_one(m, m.a[found as int][j as int]));
                        } else {
                            assert(!near_one(m, m.a[i as int][j as int]));
                        }
                    }
                }
                return -1;
            }
            found = i as i32;
        } else if size * (TOLERANCE_PARTS as i128) > scale {
            assert forall|r: int| !reads_basic(m, j as int, r) by {
                if reads_basic(m, j as int, r) {
                    if r != i {
                        assert(!far_from_zero(m, m.a[i as int][j as int]));
                    }
                }
            }
            return -1;
        }
        i += 1;
    }
    proof {
        if found >= 0 {
            assert(reads_basic(m, j as int, found as int));
            lemma_basic_row_unique(m, j as int, found as int);
        } else {
            assert forall|r: int| !reads_basic(m, j as int, r) by {
                if reads_basic(m, j as int, r) {
                    assert(!near_one(m, m.a[r][j as int]));
                }
            }
        }
    }
    found
}

/// Reads the value of every variable off the tableau: for a column that is a
/// unit column within the tolerance, the right-hand side of its row; for any
/// other column, zero.
pub fn read_values(t: &Tableau, registry: &Vec<VariableInfo>) -> (values: Vec<VariableValue>)
    requires
        t.wf(),
        registry@.len() >= t@.cols(),
    ensures
        values_view(values@) == variable_values(t@, registry_view(registry@)),
{
    proof {
        t.lemma_wf();
    }
    let columns = t.columns();
    let mut values: Vec<VariableValue> = Vec::new();
    let mut j: usize = 0;
    while j < columns
        invariant
            t.wf(),
            columns == t@.cols(),
            registry@.len() >= columns,
            j <= columns,
            values@.len() == j,
            forall|k: int|
                0 <= k < j ==> (#[trigger] values@[k])@ == (ValueModel {
                    variable: registry@[k]@,
                    value: column_value(t@, k),
                }),
        decreases columns - j,
    {
        let row = find_basic_row(t, j);
        let value = if row >= 0 {
            t.rhs(row as usize)
        } else {
            0
        };
        values.push(VariableValue { variable: registry[j].duplicate(), value });
        j += 1;
    }
    proof {
        assert(values_view(values@) =~= variable_values(t@, registry_view(registry@)));
    }
    values
}

/// A node of the search tree: a tableau, the registry of its columns, a
/// count of variables, and the label of its place in the tree.
pub struct Problem {
    pub var_count: i32,
    pub tableau: Tableau,
    pub section: String,
    pub variable_map: Vec<VariableInfo>,
}

/// The content of a [`Problem`].
pub struct ProblemModel {
    pub var_count: int,
    pub tableau: TableauModel,
    pub section: Seq<char>,
    pub variable_map: Seq<VariableModel>,
}

impl View for Problem {
    type V = ProblemModel;

    open spec fn view(&self) -> ProblemModel {
        ProblemModel {
            var_count: self.var_count as int,
            tableau: self.tableau@,
            section: self.section@,
            variable_map: registry_view(self.variable_map@),
        }
    }
}

impl Problem {
    /// The tableau is well formed and the registry has one entry for each of
    /// its columns.
    pub open spec fn wf(&self) -> bool {
        &&& self.tableau.wf()
        &&& self.variable_map@.len() == self.tableau@.cols()
    }
}

/// The content of a node that may be missing.
pub open spec fn made_view(made: Option<Problem>) -> Option<ProblemModel> {
    match made {
        Some(p) => Some(p@),
        None => None,
    }
}

/// The label of a child: the label of its parent, then `.1` for the child
/// with the bound `variable <= floor` and `.2` for the other.
pub open spec fn child_label(parent: Seq<char>, upper: bool) -> Seq<char> {
    parent + (if upper {
        seq!['.', '1']
    } else {
        seq!['.', '2']
    })
}

/// The child of `parent` for a branch on column `k` with the fractional part
/// `f`, and what is reported of it.
///
/// The child's tableau is built, its registry is the parent's with one more
/// slack (`upper`) or surplus variable, and the dual method followed by the
/// primal method solves it, each with a ceiling of `fuel` pivots. Where that
/// succeeds the child exists and is reported as solved, with its objective
/// value and the values of its variables; where it fails, for whatever
/// reason, there is no child, and it is reported as pruned for that reason.
pub open spec fn branch_outcome(
    parent: ProblemModel,
    k: int,
    f: int,
    new_var_count: int,
    upper: bool,
    fuel: nat,
) -> (Option<ProblemModel>, Seq<EventModel>) {
    let start = child_tableau(parent.tableau, k, f, upper);
    let registry = extended_registry(
        parent.variable_map,
        if upper {
            slack_kind()
        } else {
            surplus_kind()
        },
    );
    let solved = dual_solve(start, fuel);
    let label = child_label(parent.section, upper);
    let notes = dual_log(start, registry, fuel);
    if solved.1 is Ok {
        (
            Some(
                ProblemModel {
                    var_count: new_var_count,
                    tableau: solved.0,
                    section: label,
                    variable_map: registry,
                },
            ),
            notes.push(
                EventModel::Solved {
                    section: label,
                    objective: solved.0.z,
                    scale: solved.0.d,
                    values: variable_values(solved.0, registry),
                },
            ),
        )
    } else {
        (None, notes.push(EventModel::Pruned { section: label, reason: solved.1->Err_0 }))
    }
}

/// The label of a child of the node with the label `parent`.
fn label_child(parent: &String, upper: bool) -> (label: String)
    ensures
        label@ == child_label(parent@, upper),
{
    proof {
        reveal_strlit(".1");
        reveal_strlit(".2");
    }
    let mut label = parent.clone();
    if upper {
        label.append(".1");
        assert(".1"@ =~= seq!['.', '1']);
    } else {
        label.append(".2");
        assert(".2"@ =~= seq!['.', '2']);
    }
    label
}

/// Builds and solves one child of `parent`, and records what becomes of it.
fn create_branch(
    parent: &Problem,
    branch_var_idx: i32,
    branch_var_value: i64,
    new_var_count: i32,
    upper: bool,
    trace: &mut Vec<TraceEvent>,
    max_pivots: usize,
) -> (made: Option<Problem>)
    requires
        parent.wf(),
        can_branch(parent@.tableau, branch_var_idx as int, branch_var_value as int),
    ensures
        made_view(made) == branch_outcome(
            parent@,
            branch_var_idx as int,
            branch_var_value as int,
            new_var_count as int,
            upper,
            max_pivots as nat,
        ).0,
        trace_view(final(trace)@) == trace_view(old(trace)@) + branch_outcome(
            parent@,
            branch_var_idx as int,
            branch_var_value as int,
            new_var_count as int,
            upper,
            max_pivots as nat,
        ).1,
        made matches Some(p) ==> p.wf(),
{
    proof {
        reveal_strlit("s");
        reveal_strlit("e");
    }
    let ghost before = trace_view(trace@);
    let mut tableau = build_child(&parent.tableau, branch_var_idx as usize, branch_var_value, upper);
    let ghost start = tableau@;
    let variable_map = if upper {
        assert("s"@ =~= slack_kind());
        extend_registry(&parent.variable_map, "s")
    } else {
        assert("e"@ =~= surplus_kind());
        extend_registry(&parent.variable_map, "e")
    };
    let ghost registry = registry_view(variable_map@);
    let section = label_child(&parent.section, upper);
    let result = get_optimal_dual(&mut tableau, trace, &variable_map, max_pivots);
    proof {
        tableau.lemma_wf();
    }
    match result {
        Ok(()) => {
            let values = read_values(&tableau, &variable_map);
            record(
                trace,
                TraceEvent::Solved {
                    section: section.clone(),
                    objective: tableau.objective_constant(),
                    scale: tableau.scale(),
                    values,
                },
            );
            proof {
                assert(trace_view(trace@) =~= before + branch_outcome(
                    parent@,
                    branch_var_idx as int,
                    branch_var_value as int,
                    new_var_count as int,
                    upper,
                    max_pivots as nat,
                ).1);
            }
            Some(Problem { var_count: new_var_count, tableau, section, variable_map })
        },
        Err(reason) => {
            record(trace, TraceEvent::Pruned { section, reason });
            proof {
                assert(trace_view(trace@) =~= before + branch_outcome(
                    parent@,
                    branch_var_idx as int,
                    branch_var_value as int,
                    new_var_count as int,
                    upper,
                    max_pivots as nat,
                ).1);
            }
            None
        },
    }
}

/// Builds and solves the child of `parent` with the bound `variable <=
/// floor`, for a branch on the variable of column `branch_var_idx` whose row
/// has the fractional part `branch_var_value / scale`.
///
/// The new row is stored with the right-hand side `-branch_var_value`, which
/// the dual method then repairs. Returns the child where it could be solved,
/// and records in `trace` what became of it.
pub fn create_left_branch(
    parent: &Problem,
    branch_var_idx: i32,
    branch_var_value: i64,
    new_var_count: i32,
    trace: &mut Vec<TraceEvent>,
    max_pivots: usize,
) -> (made: Option<Problem>)
    requires
        parent.wf(),
        can_branch(parent@.tableau, branch_var_idx as int, branch_var_value as int),
    ensures
        made_view(made) == branch_outcome(
            parent@,
            branch_var_idx as int,
            branch_var_value as int,
            new_var_count as int,
            true,
            max_pivots as nat,
        ).0,
        trace_view(final(trace)@) == trace_view(old(trace)@) + branch_outcome(
            parent@,
            branch_var_idx as int,
            branch_var_value as int,
            new_var_count as int,
            true,
            max_pivots as nat,
        ).1,
        made matches Some(p) ==> p.wf(),
{
    create_branch(parent, branch_var_idx, branch_var_value, new_var_count, true, trace, max_pivots)
}

/// Builds and solves the child of `parent` with the bound `variable >= ceil`,
/// for a branch on the variable of column `branch_var_idx` whose row has the
/// fractional part `branch_var_value / scale`.
///
/// The variable is taken to range over zero and one, so that the bound is
/// one and the new row is stored with the right-hand side
/// `branch_var_value - 1`. Returns the child where it could be solved, and
/// records in `trace` what became of it.
pub fn create_right_branch(
    parent: &Problem,
    branch_var_idx: i32,
    branch_var_value: i64,
    new_var_count: i32,
    trace: &mut Vec<TraceEvent>,
    max_pivots: usize,
) -> (made: Option<Problem>)
    requires
        parent.wf(),
        can_branch(parent@.tableau, branch_var_idx as int, branch_var_value as int),
    ensures
        made_view(made) == branch_outcome(
            parent@,
            branch_var_idx as int,
            branch_var_value as int,
            new_var_count as int,
            false,
            max_pivots as nat,
        ).0,
        trace_view(final(trace)@) == trace_view(old(trace)@) + branch_outcome(
            parent@,
            branch_var_idx as int,
            branch_var_value as int,
            new_var_count as int,
            false,
            max_pivots as nat,
        ).1,
        made matches Some(p) ==> p.wf(),
{
    create_branch(parent, branch_var_idx, branch_var_value, new_var_count, false, trace, max_pivots)
}

/// The label of the root of the search tree.
pub open spec fn root_label() -> Seq<char> {
    seq!['0']
}

/// The nodes that a child that may be missing adds to the queue.
pub open spec fn made_nodes(made: Option<ProblemModel>) -> Seq<ProblemModel> {
    match made {
        Some(p) => seq![p],
        None => Seq::empty(),
    }
}

/// The node has no room for one more row, one more column or one more
/// variable.
pub open spec fn oversized(p: ProblemModel) -> bool {
    ||| p.tableau.rows() >= MAX_DIMENSION
    ||| p.tableau.cols() >= MAX_DIMENSION
    ||| p.var_count >= i32::MAX
}

/// The number of decision variables of a node.
pub open spec fn decisions(p: ProblemModel) -> int {
    count_decisions(p.variable_map, p.variable_map.len()) as int
}

/// What processing one node adds to the queue and to the trace.
///
/// A node whose right-hand sides are all integers is a solution and has no
/// children; so has a node with no variable to branch on, and a node that is
/// too large to grow. Any other node is branched on the variable that
/// [`branch_choice`] names, first with the bound `variable <= 0` and then
/// with the bound `variable >= 1`; the children that could be solved join
/// the queue in that order.
pub open spec fn node_outcome(p: ProblemModel, fuel: nat) -> (Seq<ProblemModel>, Seq<EventModel>) {
    let m = p.tableau;
    let header = seq![EventModel::Processing { section: p.section }];
    let choice = branch_choice(m, decisions(p));
    if all_integral(m) {
        (
            Seq::empty(),
            header.push(EventModel::Integral { section: p.section, objective: m.z, scale: m.d }),
        )
    } else if choice.0 < 0 {
        (
            Seq::empty(),
            header.push(EventModel::Unbranchable { section: p.section, objective: m.z, scale: m.d }),
        )
    } else if oversized(p) {
        (Seq::empty(), header.push(EventModel::Oversized { section: p.section }))
    } else {
        let left = branch_outcome(p, choice.0, choice.1, p.var_count + 1, true, fuel);
        let right = branch_outcome(p, choice.0, choice.1, p.var_count + 1, false, fuel);
        (
            made_nodes(left.0) + made_nodes(right.0),
            header.push(
                EventModel::Branching {
                    section: p.section,
                    column: choice.0,
                    fraction: choice.1,
                    scale: m.d,
                },
            ).push(
                EventModel::Creating {
                    section: child_label(p.section, true),
                    variable: p.variable_map[choice.0],
                    upper: true,
                    bound: 0,
                },
            ) + left.1 + seq![
                EventModel::Creating {
                    section: child_label(p.section, false),
                    variable: p.variable_map[choice.0],
                    upper: false,
                    bound: 1,
                },
            ] + right.1 + seq![EventModel::Closed],
        )
    }
}

/// The trace of the search from a queue of nodes, with a ceiling of `nodes`
/// processed nodes and of `fuel` pivots for each phase of each child.
///
/// Nodes are processed first in, first out. The trace ends with `Completed`
/// where the queue runs empty, and with `Interrupted` where the ceiling is
/// reached before that.
pub open spec fn search_model(queue: Seq<ProblemModel>, nodes: nat, fuel: nat) -> Seq<EventModel>
    decreases nodes,
{
    if queue.len() == 0 {
        seq![EventModel::Completed]
    } else if nodes == 0 {
        seq![EventModel::Interrupted]
    } else {
        let outcome = node_outcome(queue[0], fuel);
        outcome.1 + search_model(
            queue.subrange(1, queue.len() as int) + outcome.0,
            (nodes - 1) as nat,
            fuel,
        )
    }
}

/// The content of a queue of nodes.
pub open spec fn queue_view(queue: Seq<Problem>) -> Seq<ProblemModel> {
    Seq::new(queue.len(), |i: int| queue[i]@)
}

/// Every node of the queue is well formed.
pub open spec fn queue_wf(queue: Seq<Problem>) -> bool {
    forall|i: int| 0 <= i < queue.len() ==> (#[trigger] queue[i]).wf()
}

/// The root of a search.
pub open spec fn root_model(var_count: int, m: TableauModel, registry: Seq<VariableModel>) -> ProblemModel {
    ProblemModel { var_count: var_count, tableau: m, section: root_label(), variable_map: registry }
}

/// Adds a child to the queue where there is one.
fn enqueue(queue: &mut VecDeque<Problem>, made: Option<Problem>)
    requires
        queue_wf(old(queue)@),
        made matches Some(p) ==> p.wf(),
    ensures
        queue_wf(final(queue)@),
        queue_view(final(queue)@) == queue_view(old(queue)@) + made_nodes(made_view(made)),
{
    match made {
        Some(problem) => {
            queue.push_back(problem);
            assert(queue_view(queue@) =~= queue_view(old(queue)@) + made_nodes(made_view(made)));
        },
        None => {
            assert(queue_view(queue@) =~= queue_view(old(queue)@) + made_nodes(made_view(made)));
        },
    }
}

/// Processes one node: reports it, and where it has to be branched, builds
/// and solves its two children and adds those that could be solved to the
/// queue.
pub fn process_node(
    problem: &Problem,
    trace: &mut Vec<TraceEvent>,
    queue: &mut VecDeque<Problem>,
    max_pivots: usize,
)
    requires
        problem.wf(),
        queue_wf(old(queue)@),
    ensures
        queue_wf(final(queue)@),
        trace_view(final(trace)@) == trace_view(old(trace)@) + node_outcome(
            problem@,
            max_pivots as nat,
        ).1,
        queue_view(final(queue)@) == queue_view(old(queue)@) + node_outcome(
            problem@,
            max_pivots as nat,
        ).0,
{
    let ghost p = problem@;
    let ghost m = p.tableau;
    let ghost fuel = max_pivots as nat;
    let ghost before = trace_view(trace@);
    let ghost waiting = queue_view(queue@);
    let ghost outcome = node_outcome(p, fuel);
    proof {
        problem.tableau.lemma_wf();
    }
    record(trace, TraceEvent::Processing { section: problem.section.clone() });
    if is_all_integral(&problem.tableau) {
        record(
            trace,
            TraceEvent::Integral {
                section: problem.section.clone(),
                objective: problem.tableau.objective_constant(),
                scale: problem.tableau.scale(),
            },
        );
        proof {
            assert(trace_view(trace@) =~= before + outcome.1);
            assert(queue_view(queue@) =~= waiting + outcome.0);
        }
        return ;
    }
    let decision_total = decision_count(&problem.variable_map);
    let (branch_var_idx, branch_var_value) = get_branch_var(decision_total as i32, &problem.tableau);
    if branch_var_idx == -1 {
        record(
            trace,
            TraceEvent::Unbranchable {
                section: problem.section.clone(),
                objective: problem.tableau.objective_constant(),
                scale: problem.tableau.scale(),
            },
        );
        proof {
            assert(trace_view(trace@) =~= before + outcome.1);
            assert(queue_view(queue@) =~= waiting + outcome.0);
        }
        return ;
    }
    if problem.tableau.rows() >= MAX_DIMENSION || problem.tableau.columns() >= MAX_DIMENSION
        || problem.var_count >= i32::MAX {
        record(trace, TraceEvent::Oversized { section: problem.section.clone() });
        proof {
            assert(trace_view(trace@) =~= before + outcome.1);
            assert(queue_view(queue@) =~= waiting + outcome.0);
        }
        return ;
    }
    proof {
        let row = branch_row(m, decision_total as int);
        assert(m.a[row][branch_var_idx as int] == m.d);
        assert forall|q: int| 0 <= q < row implies #[trigger] m.a[q][branch_var_idx as int] != m.d by {}
        lemma_first_one_row_unique(m, branch_var_idx as int, row);
        assert(can_branch(m, branch_var_idx as int, branch_var_value as int));
        assert(registry_view(problem.variable_map@)[branch_var_idx as int]
            == problem.variable_map@[branch_var_idx as int]@);
    }
    let new_var_count = problem.var_count + 1;
    record(
        trace,
        TraceEvent::Branching {
            section: problem.section.clone(),
            column: branch_var_idx,
            fraction: branch_var_value,
            scale: problem.tableau.scale(),
        },
    );
    record(
        trace,
        TraceEvent::Creating {
            section: label_child(&problem.section, true),
            variable: problem.variable_map[branch_var_idx as usize].duplicate(),
            upper: true,
            bound: 0,
        },
    );
    let left = create_left_branch(
        problem,
        branch_var_idx,
        branch_var_value,
        new_var_count,
        trace,
        max_pivots,
    );
    let ghost left_made = made_view(left);
    enqueue(queue, left);
    record(
        trace,
        TraceEvent::Creating {
            section: label_child(&problem.section, false),
            variable: problem.variable_map[branch_var_idx as usize].duplicate(),
            upper: false,
            bound: 1,
        },
    );
    let right = create_right_branch(
        problem,
        branch_var_idx,
        branch_var_value,
        new_var_count,
        trace,
        max_pivots,
    );
    let ghost right_made = made_view(right);
    enqueue(queue, right);
    record(trace, TraceEvent::Closed);
    proof {
        assert(trace_view(trace@) =~= before + outcome.1);
        assert(queue_view(queue@) =~= waiting + outcome.0);
    }
}

/// Searches the tree of bounded subproblems below the solved tableau `t`,
/// breadth first, and returns the trace of the search.
///
/// `initial_variable_map` names the variable of each column of `t`, and
/// `var_count` is the count of variables that the root carries. Every node is
/// processed as [`node_outcome`] says; a child that cannot be solved is
/// pruned, and nothing else prunes. At most `max_nodes` nodes are processed,
/// and each phase of the solution of a child makes at most `max_pivots`
/// pivots.
pub fn branch_and_bound(
    var_count: i32,
    t: &Tableau,
    initial_variable_map: Vec<VariableInfo>,
    max_nodes: usize,
    max_pivots: usize,
) -> (trace: Vec<TraceEvent>)
    requires
        t.wf(),
        initial_variable_map@.len() == t@.cols(),
    ensures
        trace_view(trace@) == search_model(
            seq![root_model(var_count as int, t@, registry_view(initial_variable_map@))],
            max_nodes as nat,
            max_pivots as nat,
        ),
{
    proof {
        reveal_strlit("0");
    }
    let ghost root = root_model(var_count as int, t@, registry_view(initial_variable_map@));
    let ghost fuel = max_pivots as nat;
    let mut trace: Vec<TraceEvent> = Vec::new();
    let mut queue: VecDeque<Problem> = VecDeque::new();
    let root_problem = Problem {
        var_count,
        tableau: t.duplicate(),
        section: String::from_str("0"),
        variable_map: initial_variable_map,
    };
    assert(root_problem@.section =~= root_label());
    assert(root_problem@ == root);
    queue.push_back(root_problem);
    assert(queue_view(queue@) =~= seq![root]);
    assert(trace_view(trace@) =~= Seq::<EventModel>::empty());
    let mut left: usize = max_nodes;
    loop
        invariant
            queue_wf(queue@),
            fuel == max_pivots as nat,
            trace_view(trace@) + search_model(queue_view(queue@), left as nat, fuel) == search_model(
                seq![root],
                max_nodes as nat,
                fuel,
            ),
            root == root_model(var_count as int, t@, registry_view(initial_variable_map@)),
        decreases left,
    {
        let ghost before = trace_view(trace@);
        let ghost waiting = queue_view(queue@);
        match queue.pop_front() {
            None => {
                record(&mut trace, TraceEvent::Completed);
                assert(trace_view(trace@) =~= before + search_model(waiting, left as nat, fuel));
                return trace;
            },
            Some(current_problem) => {
                if left == 0 {
                    record(&mut trace, TraceEvent::Interrupted);
                    assert(trace_view(trace@) =~= before + search_model(waiting, left as nat, fuel));
                    return trace;
                }
                assert(queue_view(queue@) =~= waiting.subrange(1, waiting.len() as int));
                assert(current_problem@ == waiting[0]);
                process_node(&current_problem, &mut trace, &mut queue, max_pivots);
                left = left - 1;
                proof {
                    let outcome = node_outcome(waiting[0], fuel);
                    let rest = search_model(
                        waiting.subrange(1, waiting.len() as int) + outcome.0,
                        left as nat,
                        fuel,
                    );
                    assert(search_model(waiting, (left + 1) as nat, fuel) == outcome.1 + rest);
                    assert(trace_view(trace@) + rest =~= before + (outcome.1 + rest));
                }
            },
        }
    }
}

/// Idempotence. The search from a root whose right-hand sides are all
/// integers branches nowhere: it reports the root as the one solution and is
/// complete.
pub proof fn lemma_integral_root(root: ProblemModel, nodes: nat, fuel: nat)
    requires
        all_integral(root.tableau),
        nodes >= 1,
    ensures
        search_model(seq![root], nodes, fuel) == seq![
            EventModel::Processing { section: root.section },
            EventModel::Integral {
                section: root.section,
                objective: root.tableau.z,
                scale: root.tableau.d,
            },
            EventModel::Completed,
        ],
{
    let queue = seq![root];
    let outcome = node_outcome(root, fuel);
    let rest = queue.subrange(1, queue.len() as int) + outcome.0;
    assert(rest =~= Seq::<ProblemModel>::empty());
    assert(search_model(rest, (nodes - 1) as nat, fuel) == seq![EventModel::Completed]);
    assert(search_model(queue, nodes, fuel) =~= seq![
        EventModel::Processing { section: root.section },
        EventModel::Integral { section: root.section, objective: root.tableau.z, scale: root.tableau.d },
        EventModel::Completed,
    ]);
}

} // verus!

//! The structured trace of a search: one event for everything that the
//! search reports, in the order in which it happens.

use vstd::prelude::*;
use crate::pivot::SolveError;
use crate::registry::VariableInfo;
use crate::registry::VariableModel;

verus! {

/// The value of one variable at a solved node, as a numerator over the
/// denominator of the event that holds it.
#[derive(Debug)]
pub struct VariableValue {
    pub variable: VariableInfo,
    pub value: i64,
}

/// The content of a [`VariableValue`].
pub struct ValueModel {
    pub variable: VariableModel,
    pub value: int,
}

impl View for VariableValue {
    type V = ValueModel;

    open spec fn view(&self) -> ValueModel {
        ValueModel { variable: self.variable@, value: self.value as int }
    }
}

/// The content of a list of values.
pub open spec fn values_view(values: Seq<VariableValue>) -> Seq<ValueModel> {
    Seq::new(values.len(), |i: int| values[i]@)
}

/// One event of the trace. Sections name nodes of the search tree (`"0"` for
/// the root, `"0.1"` and `"0.2"` for its children); objective values and
/// fractions are numerators over the `scale` given with them.
#[derive(Debug)]
pub enum TraceEvent {
    /// A node is taken from the queue.
    Processing { section: String },
    /// Every right-hand side of the node is an integer: the node is a
    /// solution, with this objective value.
    Integral { section: String, objective: i64, scale: i64 },
    /// Some right-hand side is fractional, but no decision variable can be
    /// branched on: the node is closed with this objective value.
    Unbranchable { section: String, objective: i64, scale: i64 },
    /// The node is too large for another row and column: it is closed.
    Oversized { section: String },
    /// The node is branched on the variable in `column`, whose row has the
    /// fractional part `fraction / scale`.
    Branching { section: String, column: i32, fraction: i64, scale: i64 },
    /// The child `section` is built with the bound `variable <= bound` (where
    /// `upper` holds) or `variable >= bound`.
    Creating { section: String, variable: VariableInfo, upper: bool, bound: i64 },
    /// The dual method found no entering column for its first leaving row,
    /// counted from one.
    DualStuck { leaving_row: i32 },
    /// The dual method makes its first pivot, with this entering variable and
    /// this leaving row, counted from one.
    DualStart { variable: VariableInfo, leaving_row: i32 },
    /// The child `section` was solved, with this objective value and these
    /// values of its variables.
    Solved { section: String, objective: i64, scale: i64, values: Vec<VariableValue> },
    /// The child `section` could not be solved, for the reason given, and is
    /// discarded.
    Pruned { section: String, reason: SolveError },
    /// Both children of a node have been dealt with.
    Closed,
    /// The queue is empty: the search is complete.
    Completed,
    /// The node ceiling was reached with nodes still in the queue.
    Interrupted,
}

/// The content of a [`TraceEvent`].
pub enum EventModel {
    Processing { section: Seq<char> },
    Integral { section: Seq<char>, objective: int, scale: int },
    Unbranchable { section: Seq<char>, objective: int, scale: int },
    Oversized { section: Seq<char> },
    Branching { section: Seq<char>, column: int, fraction: int, scale: int },
    Creating { section: Seq<char>, variable: VariableModel, upper: bool, bound: int },
    DualStuck { leaving_row: int },
    DualStart { variable: VariableModel, leaving_row: int },
    Solved { section: Seq<char>, objective: int, scale: int, values: Seq<ValueModel> },
    Pruned { section: Seq<char>, reason: SolveError },
    Closed,
    Completed,
    Interrupted,
}

impl View for TraceEvent {
    type V = EventModel;

    open spec fn view(&self) -> EventModel {
        match *self {
            TraceEvent::Processing { section } => EventModel::Processing { section: section@ },
            TraceEvent::Integral { section, objective, scale } => EventModel::Integral {
                section: section@,
                objective: objective as int,
                scale: scale as int,
            },
            TraceEvent::Unbranchable { section, objective, scale } => EventModel::Unbranchable {
                section: section@,
                objective: objective as int,
                scale: scale as int,
            },
            TraceEvent::Oversized { section } => EventModel::Oversized { section: section@ },
            TraceEvent::Branching { section, column, fraction, scale } => EventModel::Branching {
                section: section@,
                column: column as int,
                fraction: fraction as int,
                scale: scale as int,
            },
            TraceEvent::Creating { section, variable, upper, bound } => EventModel::Creating {
                section: section@,
                variable: variable@,
                upper: upper,
                bound: bound as int,
            },
            TraceEvent::DualStuck { leaving_row } => EventModel::DualStuck { leaving_row: leaving_row as int },
            TraceEvent::DualStart { variable, leaving_row } => EventModel::DualStart {
                variable: variable@,
                leaving_row: leaving_row as int,
            },
            TraceEvent::Solved { section, objective, scale, values } => EventModel::Solved {
                section: section@,
                objective: objective as int,
                scale: scale as int,
                values: values_view(values@),
            },
            TraceEvent::Pruned { section, reason } => EventModel::Pruned {
                section: section@,
                reason: reason,
            },
            TraceEvent::Closed => EventModel::Closed,
            TraceEvent::Completed => EventModel::Completed,
            TraceEvent::Interrupted => EventModel::Interrupted,
        }
    }
}

/// The content of a trace, event by event.
pub open spec fn trace_view(trace: Seq<TraceEvent>) -> Seq<EventModel> {
    Seq::new(trace.len(), |i: int| trace[i]@)
}

/// Appending an event to a trace appends its content to the content of the
/// trace.
pub proof fn lemma_trace_push(trace: Seq<TraceEvent>, event: TraceEvent)
    ensures
        trace_view(trace.push(event)) == trace_view(trace).push(event@),
{
    assert(trace_view(trace.push(event)) =~= trace_view(trace).push(event@));
}

/// Records an event at the end of a trace.
pub fn record(trace: &mut Vec<TraceEvent>, event: TraceEvent)
    ensures
        trace_view(final(trace)@) == trace_view(old(trace)@).push(event@),
{
    proof {
        lemma_trace_push(trace@, event);
    }
    trace.push(event);
}

} // verus!

//! The variable registry: which symbolic variable stands in which column.

use vstd::prelude::*;
use vstd::string::StringExecFns;

verus! {

/// The variable of one column: its kind (`"x"` for a decision variable, `"s"`
/// for a slack, `"e"` for a surplus) and its ordinal within that kind,
/// counted from zero.
#[derive(Clone, Debug)]
pub struct VariableInfo {
    pub var_type: String,
    pub index: usize,
}

/// The content of a [`VariableInfo`].
pub struct VariableModel {
    /// The characters of the kind.
    pub var_type: Seq<char>,
    /// The ordinal within the kind.
    pub index: nat,
}

impl View for VariableInfo {
    type V = VariableModel;

    open spec fn view(&self) -> VariableModel {
        VariableModel { var_type: self.var_type@, index: self.index as nat }
    }
}

/// The content of a registry, column by column.
pub open spec fn registry_view(registry: Seq<VariableInfo>) -> Seq<VariableModel> {
    Seq::new(registry.len(), |i: int| registry[i]@)
}

/// The kind of the decision variables.
pub open spec fn decision_kind() -> Seq<char> {
    seq!['x']
}

/// The kind of the slack variables, which a branch `variable <= bound` adds.
pub open spec fn slack_kind() -> Seq<char> {
    seq!['s']
}

/// The kind of the surplus variables, which a branch `variable >= bound`
/// adds.
pub open spec fn surplus_kind() -> Seq<char> {
    seq!['e']
}

/// The number of decision variables among the first `n` entries.
pub open spec fn count_decisions(registry: Seq<VariableModel>, n: nat) -> nat
    decreases n,
{
    if n == 0 {
        0
    } else {
        count_decisions(registry, (n - 1) as nat) + if registry[n - 1].var_type == decision_kind() {
            1nat
        } else {
            0nat
        }
    }
}

/// The registry of a branch: the parent's registry and one more entry of the
/// given kind, whose ordinal is the number of entries of the parent that are
/// not decision variables.
pub open spec fn extended_registry(parent: Seq<VariableModel>, kind: Seq<char>) -> Seq<VariableModel> {
    parent.push(
        VariableModel {
            var_type: kind,
            index: (parent.len() - count_decisions(parent, parent.len())) as nat,
        },
    )
}

/// The character of a decimal digit.
pub open spec fn digit_char(d: nat) -> char {
    if d == 0 {
        '0'
    } else if d == 1 {
        '1'
    } else if d == 2 {
        '2'
    } else if d == 3 {
        '3'
    } else if d == 4 {
        '4'
    } else if d == 5 {
        '5'
    } else if d == 6 {
        '6'
    } else if d == 7 {
        '7'
    } else if d == 8 {
        '8'
    } else {
        '9'
    }
}

/// The decimal digits of a natural number, without leading zeros.
pub open spec fn decimal(n: nat) -> Seq<char>
    decreases n,
{
    if n < 10 {
        seq![digit_char(n)]
    } else {
        decimal(n / 10).push(digit_char(n % 10))
    }
}

/// The name under which a variable is reported: its kind, then its ordinal
/// counted from one, as in `x3`, `s2` or `e1`.
pub open spec fn variable_name(v: VariableModel) -> Seq<char> {
    v.var_type + decimal(v.index + 1)
}

/// The decimal digit `d` as a string.
fn digit_text(d: u128) -> (text: &'static str)
    requires
        d < 10,
    ensures
        text@ == seq![digit_char(d as nat)],
{
    proof {
        reveal_strlit("0");
        reveal_strlit("1");
        reveal_strlit("2");
        reveal_strlit("3");
        reveal_strlit("4");
        reveal_strlit("5");
        reveal_strlit("6");
        reveal_strlit("7");
        reveal_strlit("8");
        reveal_strlit("9");
    }
    let text = if d == 0 {
        "0"
    } else if d == 1 {
        "1"
    } else if d == 2 {
        "2"
    } else if d == 3 {
        "3"
    } else if d == 4 {
        "4"
    } else if d == 5 {
        "5"
    } else if d == 6 {
        "6"
    } else if d == 7 {
        "7"
    } else if d == 8 {
        "8"
    } else {
        "9"
    };
    assert(text@ =~= seq![digit_char(d as nat)]);
    text
}

/// Appends the decimal digits of `n` to `text`.
fn append_decimal(text: &mut String, n: u128)
    ensures
        final(text)@ == old(text)@ + decimal(n as nat),
    decreases n,
{
    if n < 10 {
        text.append(digit_text(n));
    } else {
        append_decimal(text, n / 10);
        text.append(digit_text(n % 10));
        assert(text@ =~= old(text)@ + decimal(n as nat));
    }
}

impl VariableInfo {
    /// The variable of the given kind and ordinal.
    pub fn new(var_type: &str, index: usize) -> (made: VariableInfo)
        ensures
            made@ == (VariableModel { var_type: var_type@, index: index as nat }),
    {
        VariableInfo { var_type: String::from_str(var_type), index }
    }

    /// An independent copy.
    pub fn duplicate(&self) -> (copy: VariableInfo)
        ensures
            copy@ == self@,
    {
        VariableInfo { var_type: self.var_type.clone(), index: self.index }
    }

    /// Whether this is a decision variable.
    pub fn is_decision(&self) -> (yes: bool)
        ensures
            yes == (self@.var_type == decision_kind()),
    {
        proof {
            reveal_strlit("x");
        }
        let kind = String::from_str("x");
        assert(kind@ =~= decision_kind());
        self.var_type == kind
    }

    /// The name under which the variable is reported: kind and ordinal
    /// counted from one.
    pub fn name(&self) -> (text: String)
        ensures
            text@ == variable_name(self@),
    {
        let mut text = self.var_type.clone();
        append_decimal(&mut text, self.index as u128 + 1);
        text
    }
}

/// An independent copy of a registry.
pub fn copy_registry(registry: &Vec<VariableInfo>) -> (copy: Vec<VariableInfo>)
    ensures
        registry_view(copy@) == registry_view(registry@),
{
    let mut copy: Vec<VariableInfo> = Vec::new();
    let mut i: usize = 0;
    while i < registry.len()
        invariant
            i <= registry@.len(),
            copy@.len() == i,
            forall|k: int| 0 <= k < i ==> (#[trigger] copy@[k])@ == registry@[k]@,
        decreases registry@.len() - i,
    {
        copy.push(registry[i].duplicate());
        i += 1;
    }
    assert(registry_view(copy@) =~= registry_view(registry@));
    copy
}

/// The number of decision variables in a registry.
pub fn decision_count(registry: &Vec<VariableInfo>) -> (count: usize)
    ensures
        count == count_decisions(registry_view(registry@), registry@.len()),
        count <= registry@.len(),
{
    let mut count: usize = 0;
    let mut i: usize = 0;
    while i < registry.len()
        invariant
            i <= registry@.len(),
            count <= i,
            count == count_decisions(registry_view(registry@), i as nat),
        decreases registry@.len() - i,
    {
        assert(registry_view(registry@)[i as int] == registry@[i as int]@);
        if registry[i].is_decision() {
            count += 1;
        }
        i += 1;
    }
    count
}

/// The registry of a branch: a copy of the parent's registry with one more
/// entry of the given kind, whose ordinal is its position among the entries
/// that are not decision variables.
pub fn extend_registry(parent: &Vec<VariableInfo>, kind: &str) -> (child: Vec<VariableInfo>)
    ensures
        registry_view(child@) == extended_registry(registry_view(parent@), kind@),
        child@.len() == parent@.len() + 1,
{
    let mut child = copy_registry(parent);
    assert(child@.len() == parent@.len()) by {
        assert(registry_view(child@).len() == registry_view(parent@).len());
    }
    let decisions = decision_count(parent);
    let ghost before = child@;
    child.push(VariableInfo::new(kind, parent.len() - decisions));
    proof {
        let target = extended_registry(registry_view(parent@), kind@);
        assert forall|k: int| 0 <= k < child@.len() implies registry_view(child@)[k] == target[k] by {
            if k < parent@.len() {
                assert(child@[k] == before[k]);
                assert(registry_view(before)[k] == registry_view(parent@)[k]);
            }
        }
        assert(registry_view(child@) =~= target);
    }
    child
}

} // verus!

use bnb_simplex::registry::copy_registry;
use bnb_simplex::registry::decision_count;
use bnb_simplex::registry::extend_registry;
use bnb_simplex::registry::VariableInfo;

#[test]
fn names_count_from_one() {
    assert_eq!(VariableInfo::new("x", 2).name(), "x3");
    assert_eq!(VariableInfo::new("s", 1).name(), "s2");
    assert_eq!(VariableInfo::new("e", 0).name(), "e1");
}

#[test]
fn names_carry_every_digit() {
    assert_eq!(VariableInfo::new("x", 8).name(), "x9");
    assert_eq!(VariableInfo::new("x", 9).name(), "x10");
    assert_eq!(VariableInfo::new("x", 99).name(), "x100");
    assert_eq!(VariableInfo::new("s", 1234567889).name(), "s1234567890");
    assert_eq!(VariableInfo::new("", 41).name(), "42");
    assert_eq!(VariableInfo::new("slack", 4).name(), "slack5");
}

#[test]
fn names_do_not_overflow() {
    let last = VariableInfo::new("x", usize::MAX);
    let expected = format!("x{}", usize::MAX as u128 + 1);
    assert_eq!(last.name(), expected);
}

#[test]
fn new_keeps_kind_and_ordinal() {
    let v = VariableInfo::new("e", 7);
    assert_eq!(v.var_type, "e");
    assert_eq!(v.index, 7);
}

#[test]
fn duplicate_copies_kind_and_ordinal() {
    let v = VariableInfo::new("s", 3);
    let copy = v.duplicate();
    assert_eq!(copy.var_type, "s");
    assert_eq!(copy.index, 3);
}

#[test]
fn decision_variables_are_those_of_kind_x() {
    assert!(VariableInfo::new("x", 0).is_decision());
    assert!(!VariableInfo::new("s", 0).is_decision());
    assert!(!VariableInfo::new("e", 0).is_decision());
    assert!(!VariableInfo::new("xx", 0).is_decision());
    assert!(!VariableInfo::new("", 0).is_decision());
}

#[test]
fn decision_count_counts_kind_x() {
    let map = vec![
        VariableInfo::new("x", 0),
        VariableInfo::new("s", 0),
        VariableInfo::new("x", 1),
        VariableInfo::new("e", 1),
        VariableInfo::new("x", 2),
    ];
    assert_eq!(decision_count(&map), 3);
    assert_eq!(decision_count(&Vec::new()), 0);
}

#[test]
fn copy_registry_copies_every_entry() {
    let map = vec![VariableInfo::new("x", 0), VariableInfo::new("s", 5)];
    let copy = copy_registry(&map);
    assert_eq!(copy.len(), 2);
    assert_eq!(copy[0].name(), "x1");
    assert_eq!(copy[1].name(), "s6");
}

#[test]
fn a_branch_adds_one_entry_after_the_others() {
    let parent = vec![
        VariableInfo::new("x", 0),
        VariableInfo::new("x", 1),
        VariableInfo::new("s", 0),
    ];
    let left = extend_registry(&parent, "s");
    assert_eq!(left.len(), 4);
    assert_eq!(left[3].var_type, "s");
    // three entries, two of them decision variables
    assert_eq!(left[3].index, 1);
    assert_eq!(left[3].name(), "s2");
    let right = extend_registry(&left, "e");
    assert_eq!(right.len(), 5);
    assert_eq!(right[4].var_type, "e");
    assert_eq!(right[4].index, 2);
    assert_eq!(right[4].name(), "e3");
    assert_eq!(right[0].name(), "x1");
    assert_eq!(right[2].name(), "s1");
    assert_eq!(parent.len(), 3);
}

use rustasata::variable::{Variable, VariableState};

#[test]
fn variable_set_and_unset() {
    let mut v = Variable::new(4);
    assert_eq!(VariableState::Open, v.state);
    v.watch(true, 7);
    v.watch(false, 8);
    v.watch(false, 9);
    assert_eq!(Some(vec![8, 9]), v.set(true, Some(3), 2));
    assert_eq!(VariableState::True, v.state);
    assert_eq!(Some(3), v.antecedent);
    assert_eq!(Some(2), v.decision_level);
    assert_eq!(None, v.set(false, None, 5));
    assert_eq!(VariableState::True, v.state);
    v.unset();
    assert_eq!(VariableState::Open, v.state);
    assert_eq!(None, v.decision_level);
    assert_eq!(Some(vec![7]), v.set(false, None, 1));
}

#[test]
fn variable_unwatch_removes_first_occurrence() {
    let mut v = Variable::new(1);
    v.watch(true, 5);
    v.watch(true, 6);
    v.watch(true, 5);
    v.unwatch(true, 5);
    assert_eq!(vec![6, 5], v.watched_pos);
    v.unwatch(true, 42);
    assert_eq!(vec![6, 5], v.watched_pos);
    v.unwatch(false, 6);
    assert_eq!(vec![6, 5], v.watched_pos);
}

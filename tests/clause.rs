use rustasata::clause::{Clause, WatchedUpdate};
use rustasata::literal::Literal;
use vec_map::VecMap;

#[test]
fn watched_literals_returns_unit() {
    let literals = vec![-78634];
    let clause = Clause::new(literals);
    assert_eq!(Literal(-78634), clause.watched_literals().0);
    assert_eq!(Literal(-78634), clause.watched_literals().1);
}

#[test]
fn watched_literals_returns_first_two() {
    let literals = vec![-1, 3, 7];
    let clause = Clause::new(literals);
    assert_eq!(Literal(-1), clause.watched_literals().0);
    assert_eq!(Literal(3), clause.watched_literals().1);
}

#[test]
fn propagate_swaps_literals_and_returns_new_watched() {
    let literals = vec![-4, -2, 1, 3];
    let mut clause = Clause::new(literals);
    let assigns = VecMap::new();
    let result = clause.propagate(&Literal(2), &assigns);
    assert_eq!(
        vec![Literal(-4), Literal(1), Literal(-2), Literal(3)],
        *clause.literals()
    );
    assert_eq!(WatchedUpdate::NewWatched(Literal(1)), result);
}

#[test]
fn new_sorts_and_removes_duplicates() {
    let clause = Clause::new(vec![3, -1, 3, -1, 2]);
    assert_eq!(vec![Literal(-1), Literal(2), Literal(3)], *clause.literals());
}

#[test]
fn from_literals_sorts_and_removes_duplicates() {
    let clause = Clause::from_literals(vec![Literal(5), Literal(-5), Literal(5)]);
    assert_eq!(vec![Literal(-5), Literal(5)], *clause.literals());
}

#[test]
fn propagate_reports_unit_when_no_literal_is_left() {
    let mut clause = Clause::new(vec![1, 2, 3]);
    let mut assigns = VecMap::new();
    assigns.insert(1, false);
    assigns.insert(3, false);
    let result = clause.propagate(&Literal(-1), &assigns);
    assert_eq!(WatchedUpdate::NowUnit(Literal(2)), result);
    assert_eq!(vec![Literal(1), Literal(2), Literal(3)], *clause.literals());
}

#[test]
fn propagate_leaves_a_satisfied_watch() {
    let mut clause = Clause::new(vec![1, 2, 3]);
    let mut assigns = VecMap::new();
    assigns.insert(1, true);
    let result = clause.propagate(&Literal(-1), &assigns);
    assert_eq!(WatchedUpdate::NoChange, result);
}

#[test]
fn propagate_ignores_a_literal_it_does_not_watch() {
    let mut clause = Clause::new(vec![1, 2, 3]);
    let assigns = VecMap::new();
    let result = clause.propagate(&Literal(-3), &assigns);
    assert_eq!(WatchedUpdate::NoChange, result);
}

#[test]
fn propagate_on_a_unit_clause_reports_its_literal() {
    let mut clause = Clause::new(vec![4]);
    let mut assigns = VecMap::new();
    assigns.insert(4, false);
    let result = clause.propagate(&Literal(-4), &assigns);
    assert_eq!(WatchedUpdate::NowUnit(Literal(4)), result);
}

use rustasata::clause::Clause;
use rustasata::decision_provider::DecisionProvider;
use rustasata::literal::Literal;

#[test]
fn empty_provider_offers_nothing() {
    let dp = DecisionProvider::new();
    assert_eq!(None, dp.get_next());
}

#[test]
fn provider_prefers_frequent_variables_and_majority_polarity() {
    let mut dp = DecisionProvider::new();
    dp.new_clause(Clause::new(vec![1, -2]).literals());
    dp.new_clause(Clause::new(vec![-2, 3]).literals());
    dp.new_clause(Clause::new(vec![-2, -3]).literals());
    assert_eq!(Some(Literal(-2)), dp.get_next());
    dp.set(2);
    assert_eq!(Some(Literal(3)), dp.get_next());
    dp.set(3);
    assert_eq!(Some(Literal(1)), dp.get_next());
    dp.set(1);
    assert_eq!(None, dp.get_next());
    dp.unset(3);
    assert_eq!(Some(Literal(3)), dp.get_next());
}

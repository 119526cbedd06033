use rustasata::literal::Literal;

#[test]
fn literal_parts() {
    let l = Literal::new(&-7);
    assert_eq!(Literal(-7), l);
    assert_eq!(7, l.var());
    assert!(!l.sign());
    assert_eq!(13, l.index());
    assert_eq!(14, Literal(7).index());
    assert_eq!(Literal(7), l.negate());
}

#[test]
fn literal_values() {
    let l = Literal(3);
    assert!(l.satisfied_by(Some(&true)));
    assert!(!l.satisfied_by(Some(&false)));
    assert!(!l.satisfied_by(None));
    assert!(l.falsified_by(Some(&false)));
    assert!(!l.falsified_by(Some(&true)));
    assert!(!l.falsified_by(None));
}

#[test]
fn literal_validity() {
    assert!(Literal(1).is_valid());
    assert!(!Literal(0).is_valid());
    assert!(!Literal(i64::MIN).is_valid());
    assert!(Literal(i64::MAX).is_valid());
}

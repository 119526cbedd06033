use rustasata::parser::parse;

#[test]
fn parse_skips_comments_and_problem_lines() {
    let d = parse("c a comment\np cnf 3 2\n1 -2 0\n  -3 2 0\n%\n0\n").unwrap();
    assert_eq!(vec![vec![1, -2], vec![-3, 2]], d.clauses);
}

#[test]
fn parse_empty_text() {
    let d = parse("").unwrap();
    assert!(d.clauses.is_empty());
}

#[test]
fn parse_signs_and_limits() {
    let d = parse("+5 -9223372036854775808 9223372036854775807\t007").unwrap();
    assert_eq!(vec![vec![5, i64::MIN, i64::MAX, 7]], d.clauses);
}

#[test]
fn parse_rejects_bad_words() {
    assert!(parse("1 x 2").is_err());
    assert!(parse("1 -").is_err());
    assert!(parse("9223372036854775808").is_err());
    assert!(parse("1\n2 3a\n").is_err());
}

#[test]
fn parse_drops_zeros_inside_a_line() {
    let d = parse("1 0 2\r\n").unwrap();
    assert_eq!(vec![vec![1, 2]], d.clauses);
}

#[test]
fn parse_splits_at_unicode_whitespace() {
    let d = parse("1\u{a0}2").unwrap();
    assert_eq!(vec![vec![1, 2]], d.clauses);
    let d = parse("\u{3000}c a comment\n1\u{2003}-2\u{85}3\u{202f}0\n").unwrap();
    assert_eq!(vec![vec![1, -2, 3]], d.clauses);
    assert!(parse("1\u{e9}2").is_err());
}

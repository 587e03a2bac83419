use when_rs::datecalc::{parse_month_expression, parse_number_expression, DateChecker, NumberCheck};
use when_rs::text::split_str;

#[test]
fn split_includes_boundary_empties() {
    assert_eq!(split_str(""), vec![String::new()]);
    assert_eq!(split_str("a"), vec!["a".to_string()]);
    assert_eq!(split_str("a "), vec!["a".to_string(), String::new()]);
    assert_eq!(split_str(" a"), vec![String::new(), "a".to_string()]);
    assert_eq!(split_str("a  b"), vec!["a".to_string(), "b".to_string()]);
    assert_eq!(split_str("a \t b"), vec!["a".to_string(), "b".to_string()]);
}

#[test]
fn number_expression_forms() {
    assert_eq!(parse_number_expression("123"), Some(NumberCheck::Match(123)));
    assert_eq!(parse_number_expression("+7"), Some(NumberCheck::Match(7)));
    assert_eq!(parse_number_expression("*"), Some(NumberCheck::Any));
    assert_eq!(parse_number_expression(""), None);
    assert_eq!(parse_number_expression("12a"), None);
    assert_eq!(parse_number_expression("-3"), None);
    assert_eq!(
        parse_number_expression("4294967295"),
        Some(NumberCheck::Match(4294967295))
    );
    assert_eq!(parse_number_expression("4294967296"), None);
}

#[test]
fn month_expression_forms() {
    assert_eq!(parse_month_expression("6"), Some(NumberCheck::Match(6)));
    assert_eq!(parse_month_expression("june"), Some(NumberCheck::Match(6)));
    assert_eq!(parse_month_expression("*"), None);
    assert_eq!(parse_month_expression("ju"), None);
}

#[test]
fn term_values_are_sixteen_bit() {
    assert!(DateChecker::new("w=70000").is_err());
    assert!(DateChecker::new("m=70000").is_err());
    assert!(DateChecker::new("y=2021").is_ok());
    assert!(DateChecker::new("y=65535").is_ok());
    assert!(DateChecker::new("y=65536").is_err());
}

use when_rs::months::parse_month;

#[test]
fn parse_month_test() {
    let month_str = "jan";
    let month = parse_month(month_str);
    assert!(month.is_some());
    assert_eq!(month.unwrap(), 1);

    // Now unsuccessful parse.
    let month_str = "ju";
    let month = parse_month(month_str);
    assert!(month.is_none());
}

#[test]
fn month_prefix_is_case_insensitive() {
    assert_eq!(parse_month("jan"), Some(1));
    assert_eq!(parse_month("January"), Some(1));
    assert_eq!(parse_month("JANUARY"), Some(1));
    assert_eq!(parse_month("dEcEmBeR"), Some(12));
}

#[test]
fn ambiguous_or_unknown_prefixes_fail() {
    // "ju" matches both June and July, "j" three months, "ma" two.
    assert!(parse_month("ju").is_none());
    assert!(parse_month("j").is_none());
    assert!(parse_month("ma").is_none());
    // The empty prefix matches every month.
    assert!(parse_month("").is_none());
    // No month starts with these.
    assert!(parse_month("xyz").is_none());
    assert!(parse_month("januaryy").is_none());
}

#[test]
fn unambiguous_prefixes_resolve() {
    assert_eq!(parse_month("f"), Some(2));
    assert_eq!(parse_month("mar"), Some(3));
    assert_eq!(parse_month("may"), Some(5));
    assert_eq!(parse_month("jun"), Some(6));
    assert_eq!(parse_month("jul"), Some(7));
    assert_eq!(parse_month("s"), Some(9));
    assert_eq!(parse_month("o"), Some(10));
    assert_eq!(parse_month("n"), Some(11));
    assert_eq!(parse_month("decem"), Some(12));
}

use when_rs::utils::parse_calendar_line;

#[test]
fn positive_test() {
    let r = parse_calendar_line("abc,def");
    assert!(r.is_some());
    let p = r.unwrap();
    assert_eq!(p.0, "abc");
    assert_eq!(p.1, "def");

    let r = parse_calendar_line("expr,This, my friend, is the description");
    assert!(r.is_some());
    let r = r.unwrap();
    assert_eq!(r.0, "expr");
    assert_eq!(r.1, "This, my friend, is the description");
}

#[test]
fn negative_test() {
    let r = parse_calendar_line("abc def");
    assert!(r.is_none());
}

#[test]
fn leading_commas_are_skipped() {
    let r = parse_calendar_line(",,abc,def").unwrap();
    assert_eq!(r.0, "abc");
    assert_eq!(r.1, "def");
    assert!(parse_calendar_line(",,,").is_none());
    assert!(parse_calendar_line("").is_none());
}

#[test]
fn empty_description_is_kept() {
    let r = parse_calendar_line("abc,").unwrap();
    assert_eq!(r.0, "abc");
    assert_eq!(r.1, "");
}

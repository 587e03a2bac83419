use when_rs::date::CalendarDate;
use when_rs::datecalc::{get_date_range, parse_date, DateChecker, DateExpression};
use when_rs::text::split_str;

fn new_date(year: i32, month: u32, day: u32) -> CalendarDate {
    CalendarDate::new(year, month, day).unwrap()
}

#[test]
fn fail() {
    assert_eq!(1, 1);
}

#[test]
fn simple_check_test() {
    let date = new_date(1999, 6, 17);
    assert_eq!(date.year(), 1999);
    assert_eq!(date.month(), 6);
    assert_eq!(date.day(), 17);

    let checker = DateChecker::new("August 1");
    assert!(checker.is_err());

    let checker = DateChecker::new("1999 Jun 17").unwrap();
    assert!(checker.check_date(&date));

    // Different ways to specify month
    let checker = DateChecker::new("1999 july 17").unwrap();
    assert!(!checker.check_date(&date));

    // Negative test
    let checker = DateChecker::new("2001 Jun 17").unwrap();
    assert!(!checker.check_date(&date));

    // Positive test, with *
    let checker = DateChecker::new("* Jun 17").unwrap();
    assert!(checker.check_date(&date));

    let date = new_date(1969, 5, 14);
    assert!(!checker.check_date(&date));
    let checker = DateChecker::new("* May 14").unwrap();
    assert!(checker.check_date(&date));
    let checker = DateChecker::new("1969 may *").unwrap();
    assert!(checker.check_date(&date));
}

#[test]
fn expression_check_test() {
    let date = new_date(1999, 6, 17);
    let checker = DateChecker::new("m=june & d=17").unwrap();
    assert!(checker.check_date(&date));

    let date = parse_date("2021 Feb 1").unwrap();
    let checker = DateChecker::new("z=32").unwrap();
    assert!(checker.check_date(&date));

    // 2021 September 21 is Tuesday.
    let date = parse_date("2021 Sep 21").unwrap();
    let checker = DateChecker::new("m=9 & w=2").unwrap();
    assert!(checker.check_date(&date));

    // Negative test
    let checker = DateChecker::new("m=july").unwrap();
    assert!(!checker.check_date(&date));
}

#[test]
fn parsing_date_expression() {
    assert_eq!(1, 1);
    let text = "  one two  three";
    let split = split_str(text);
    assert_eq!(split.len(), 4);
    assert_eq!(split[1], "one");
    assert_eq!(split[2], "two");
    assert_eq!(split[3], "three");

    // Parse expressions such as m=may
    let checker = DateChecker::new("m=oct").unwrap();
    match checker {
        DateChecker::Expr(v) => {
            assert_eq!(v.len(), 1);
            assert_eq!(v[0], DateExpression::M(10));
        },
        _ => assert!(false),
    }
}

#[test]
fn parsing_test_variables() {
    let checker = DateChecker::new("w=2");
    assert!(!checker.is_err());
    let checker = checker.unwrap();
    match checker {
        DateChecker::Expr(v) => {
            assert_eq!(v.len(), 1);
            assert_eq!(v[0], DateExpression::W(2));
        },
        _ => assert!(false),
    }

    let checker = DateChecker::new("m=feb");
    assert!(!checker.is_err());
}

#[test]
fn parsing_test_variables_negative() {
    let checker = DateChecker::new("w=2 &");
    assert!(checker.is_err());

    let checker = DateChecker::new("abc &");
    assert!(checker.is_err());
}

#[test]
fn creating_date_range() {
    let date1 = new_date(2020, 12, 28);
    let date2 = new_date(2021, 1, 3);
    let r = get_date_range(&date1, &date2);
    assert_eq!(r.len(), 7);
}

#[test]
fn check_date_range() {
    let date1 = new_date(2020, 12, 28);
    let date2 = new_date(2021, 1, 3);
    let checker = DateChecker::new("* Jan 2").unwrap();
    assert_eq!(checker.check_date_range(&date1, &date2).len(), 1);

    let checker = DateChecker::new("* Jan 4").unwrap();
    assert_eq!(checker.check_date_range(&date1, &date2).len(), 0);

    let checker = DateChecker::new("2020 decem 27").unwrap();
    assert_eq!(checker.check_date_range(&date1, &date2).len(), 0);

    let checker = DateChecker::new("2020 decem 28").unwrap();
    assert_eq!(checker.check_date_range(&date1, &date2).len(), 1);
}

#[test]
fn parse_date_test() {
    let date = parse_date("2021 Jan 9");
    assert!(date.is_some());
    let date = date.unwrap();
    assert_eq!(date.year(), 2021);
    assert_eq!(date.month(), 1);
    assert_eq!(date.day(), 9);
}

#[test]
fn check_date_term_test() {
    // Test w
    let term = DateExpression::W(3); // Wednesday
    let date = parse_date("2038 Jan 20").unwrap();
    assert!(term.check(&date));

    // Negative test
    let date = parse_date("2020 Jan 3").unwrap();
    assert!(!term.check(&date));

    // Test m
    let term = DateExpression::M(7); // July
    let date = parse_date("2021 July 11").unwrap();
    assert!(term.check(&date));

    // Negative test
    let date = parse_date("2020 Jan 3").unwrap();
    assert!(!term.check(&date));

    // Test d
    let term = DateExpression::D(17);
    let date = parse_date("2021 Feb 17").unwrap();
    assert!(term.check(&date));

    // Negative test
    let date = parse_date("1969 may 14").unwrap();
    assert!(!term.check(&date));

    // Test y
    let term = DateExpression::Y(2001);
    let date = parse_date("2001 january 1").unwrap();
    assert!(term.check(&date));

    // Negative test
    let date = parse_date("2020 Dec 31").unwrap();
    assert!(!term.check(&date));

    // Test a
    let term = DateExpression::A(2);
    let date = parse_date("2021 Feb 8").unwrap();
    assert!(term.check(&date));

    // Negative test
    let date = parse_date("2001 january 1").unwrap();
    assert!(!term.check(&date));

    // Test z
    let term = DateExpression::Z(32);
    let date = parse_date("2021 Feb 1").unwrap();
    assert!(term.check(&date));

    // Negative test
    let date = parse_date("2001 Mar 1").unwrap();
    assert!(!term.check(&date));
}

#[test]
fn error_messages_name_the_failing_field() {
    assert_eq!(DateChecker::new("abc Jun 17").unwrap_err(), "Bad year");
    assert_eq!(DateChecker::new("1999 xyz 17").unwrap_err(), "Bad month");
    assert_eq!(DateChecker::new("1999 Jun abc").unwrap_err(), "Bad day");
    assert_eq!(DateChecker::new("August 1").unwrap_err(), "Bad date expression");
    assert_eq!(DateChecker::new("").unwrap_err(), "Bad date expression");
    assert_eq!(DateChecker::new("w=2 &").unwrap_err(), "Bad date expression");
    assert_eq!(DateChecker::new("w=2=3").unwrap_err(), "Bad date expression");
    assert_eq!(DateChecker::new("q=2").unwrap_err(), "Bad date expression");
}

#[test]
fn positional_month_as_number() {
    let date = new_date(1999, 6, 17);
    let checker = DateChecker::new("1999 6 17").unwrap();
    assert!(checker.check_date(&date));
    let checker = DateChecker::new("1999 7 17").unwrap();
    assert!(!checker.check_date(&date));
}

#[test]
fn positional_month_has_no_wildcard() {
    assert!(DateChecker::new("1999 * 17").is_err());
}

#[test]
fn conjunction_is_commutative_scenario() {
    let c1 = DateChecker::new("m=6 & d=17").unwrap();
    let c2 = DateChecker::new("d=17 & m=6").unwrap();
    let first = new_date(1999, 6, 1);
    let last = new_date(1999, 7, 31);
    let r1 = c1.check_date_range(&first, &last);
    let r2 = c2.check_date_range(&first, &last);
    assert_eq!(r1, r2);
    assert_eq!(r1, vec![new_date(1999, 6, 17)]);
}

#[test]
fn single_day_range() {
    let d = new_date(2021, 9, 21);
    let c = DateChecker::new("m=9 & w=2").unwrap();
    assert_eq!(c.check_date_range(&d, &d), vec![d]);
    let c = DateChecker::new("m=9 & w=3").unwrap();
    assert_eq!(c.check_date_range(&d, &d), Vec::<CalendarDate>::new());
}

#[test]
fn reversed_range_is_empty() {
    let first = new_date(2021, 9, 21);
    let last = new_date(2021, 9, 10);
    let c = DateChecker::new("* Sep 15").unwrap();
    assert_eq!(c.check_date_range(&first, &last).len(), 0);
    assert_eq!(get_date_range(&first, &last).len(), 0);
}

#[test]
fn june_17_windows() {
    let c = DateChecker::new("* Jun 17").unwrap();
    let r = c.check_date_range(&new_date(1969, 5, 10), &new_date(1969, 5, 20));
    assert_eq!(r.len(), 0);
    let r = c.check_date_range(&new_date(1999, 6, 1), &new_date(1999, 6, 30));
    assert_eq!(r, vec![new_date(1999, 6, 17)]);
}

#[test]
fn weekday_term_on_monday_and_tuesday() {
    let c = DateChecker::new("m=9 & w=2").unwrap();
    // 2021-09-21 is a Tuesday, 2021-09-20 a Monday.
    assert!(c.check_date(&new_date(2021, 9, 21)));
    assert!(!c.check_date(&new_date(2021, 9, 20)));
}

#[test]
fn range_results_ascend_and_cover_bounds() {
    let c = DateChecker::new("w=1").unwrap();
    let first = new_date(2021, 9, 20); // a Monday
    let last = new_date(2021, 10, 18); // a Monday
    let r = c.check_date_range(&first, &last);
    assert_eq!(r.len(), 5);
    assert_eq!(r[0], first);
    assert_eq!(r[4], last);
    for w in r.windows(2) {
        assert!(w[0].num_days_from_ce() < w[1].num_days_from_ce());
    }
}

#[test]
fn parse_date_rejects_bad_input() {
    assert!(parse_date("2021 Feb 30").is_none());
    assert!(parse_date("2021 ju 9").is_none());
    assert!(parse_date("2021 Jan").is_none());
    assert!(parse_date("x Jan 9").is_none());
    assert!(parse_date("2021 Jan 9 extra").is_none());
    assert!(parse_date("0 Jan 9").is_none());
}

#[test]
fn parse_date_month_as_number() {
    let date = parse_date("2021 2 9").unwrap();
    assert_eq!(date.year(), 2021);
    assert_eq!(date.month(), 2);
    assert_eq!(date.day(), 9);
    assert!(parse_date("2021 13 9").is_none());
}

#[test]
fn parse_date_same_literal_twice_is_equal() {
    let d1 = parse_date("2021 Jan 9").unwrap();
    let d2 = parse_date("2021 Jan 9").unwrap();
    assert_eq!(d1, d2);
}

#[test]
fn leading_whitespace_is_not_ignored() {
    // A leading separator yields an empty leading token, as the grammar says.
    assert!(DateChecker::new(" 1999 Jun 17").is_err());
    assert!(DateChecker::new("1999 Jun 17 ").is_err());
    assert!(DateChecker::new(" w=2").is_err());
}

#[test]
fn term_values_parse_structurally() {
    // Out-of-range values parse and simply never match.
    let c = DateChecker::new("d=99").unwrap();
    assert!(!c.check_date(&new_date(2021, 9, 21)));
    // An empty conjunction cannot be written, but a term list is ANDed.
    let c = DateChecker::new("y=2021 & m=9 & d=21").unwrap();
    assert!(c.check_date(&new_date(2021, 9, 21)));
    assert!(!c.check_date(&new_date(2021, 9, 22)));
}

#[test]
fn week_of_month_boundaries() {
    // Week 1 is days 1..=7, week 2 is days 8..=14.
    let c1 = DateChecker::new("a=1").unwrap();
    let c2 = DateChecker::new("a=2").unwrap();
    assert!(c1.check_date(&new_date(2021, 2, 7)));
    assert!(!c2.check_date(&new_date(2021, 2, 7)));
    assert!(c2.check_date(&new_date(2021, 2, 8)));
    assert!(c2.check_date(&new_date(2021, 2, 14)));
    assert!(!c2.check_date(&new_date(2021, 2, 15)));
}

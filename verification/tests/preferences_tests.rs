use when_rs::preferences::{parse_line, parse_lines};

#[test]
fn can_parse_one_line() {
    let res = parse_line(" abc ghi   =   def ");
    assert!(res.is_ok());
    if let Ok((key, value)) = res {
        assert_eq!(key, "abc ghi");
        assert_eq!(value, "def");
    }
}

#[test]
fn returns_parsing_error() {
    let res = parse_line(" no equal sign");
    assert!(res.is_err());
}

#[test]
fn can_parse_lines() {
    let lines = vec![" a = b", "c=d", "nothing", "e  =   f"];

    let hm = parse_lines(lines);
    assert_eq!(hm.len(), 3);
    assert_eq!(hm.get("a"), Some(&String::from("b")));
    assert_eq!(hm.get("c"), Some(&String::from("d")));
    assert_eq!(hm.get("e"), Some(&String::from("f")));
}

#[test]
fn splits_at_the_last_usable_equals() {
    let res = parse_line("a=b= ").unwrap();
    assert_eq!(res.0, "a");
    assert_eq!(res.1, "b=");
    let res = parse_line("key=a=b").unwrap();
    assert_eq!(res.0, "key=a");
    assert_eq!(res.1, "b");
}

#[test]
fn rejects_one_sided_lines() {
    assert!(parse_line("= value").is_err());
    assert!(parse_line("key = ").is_err());
    assert!(parse_line("").is_err());
    assert!(parse_line("=").is_err());
}

#[test]
fn later_lines_override_earlier_ones() {
    let hm = parse_lines(vec!["a = 1", "a = 2"]);
    assert_eq!(hm.len(), 1);
    assert_eq!(hm.get("a"), Some(&String::from("2")));
}

use word_induct::accept::accepted;
use word_induct::settings::{get, get_extra, parse_usize, value_with_default};

fn chars(s: &str) -> Vec<char> {
    s.chars().collect()
}

#[test]
fn parses_plain_numbers() {
    assert_eq!(parse_usize(&chars("12")), Some(12));
    assert_eq!(parse_usize(&chars("0")), Some(0));
    assert_eq!(parse_usize(&chars("+7")), Some(7));
}

#[test]
fn rejects_malformed_numbers() {
    assert_eq!(parse_usize(&chars("")), None);
    assert_eq!(parse_usize(&chars("+")), None);
    assert_eq!(parse_usize(&chars("12a")), None);
    assert_eq!(parse_usize(&chars("-3")), None);
    assert_eq!(parse_usize(&chars("1 2")), None);
    assert_eq!(parse_usize(&chars("99999999999999999999999999999999")), None);
}

#[test]
fn defaults_apply_on_bad_or_zero_input() {
    assert_eq!(value_with_default(&chars("3"), false, 2), 3);
    assert_eq!(value_with_default(&chars("x"), false, 2), 2);
    assert_eq!(value_with_default(&chars("0"), false, 2), 2);
    assert_eq!(value_with_default(&chars("0"), true, 1), 0);
    assert_eq!(value_with_default(&chars(""), true, 1), 1);
}

#[test]
fn extra_set_drops_ideographs() {
    let extra = get_extra(&chars("a汉b語c"));
    assert_eq!(extra, chars("abc"));
}

#[test]
fn settings_come_from_the_three_inputs() {
    let (n, threshold, extra) = get(&chars("3"), &chars("0"), &chars("xy"));
    assert_eq!(n, 3);
    assert_eq!(threshold, 0);
    assert_eq!(extra, chars("xy"));
    let (n2, threshold2, extra2) = get(&chars("oops"), &chars("oops"), &chars(""));
    assert_eq!(n2, 2);
    assert_eq!(threshold2, 1);
    assert!(extra2.is_empty());
}

#[test]
fn acceptance_covers_range_and_extra_set() {
    let extra = chars("ab");
    assert!(accepted('汉', &extra));
    assert!(accepted('a', &extra));
    assert!(!accepted('x', &extra));
    let none: Vec<char> = Vec::new();
    assert!(accepted('一', &none));
    assert!(accepted('鿿', &none));
    assert!(!accepted('a', &none));
    assert!(!accepted('ꀀ', &none));
}

use nordiv::text::{chars_of, parse_number, parse_signed, same_text, split_fields};

fn chars(text: &str) -> Vec<char> {
    text.chars().collect()
}

#[test]
fn chars_of_gives_the_characters() {
    assert_eq!(chars_of("a/b"), vec!['a', '/', 'b']);
    assert_eq!(chars_of(""), Vec::<char>::new());
    assert_eq!(chars_of("\u{00e9}\u{4e2d}"), vec!['\u{00e9}', '\u{4e2d}']);
}

#[test]
fn same_text_compares_characters() {
    assert!(same_text("online", "online"));
    assert!(same_text("", ""));
    assert!(!same_text("online", "Online"));
    assert!(!same_text("online", "onlin"));
    assert!(!same_text("online", "online "));
}

#[test]
fn split_fields_splits_at_every_separator() {
    assert_eq!(split_fields(&chars("10.0.0.0/24"), '/'), vec![chars("10.0.0.0"), chars("24")]);
    assert_eq!(
        split_fields(&chars("1.2.3.4"), '.'),
        vec![chars("1"), chars("2"), chars("3"), chars("4")]
    );
    assert_eq!(split_fields(&chars(""), '/'), vec![chars("")]);
    assert_eq!(split_fields(&chars("abc"), '/'), vec![chars("abc")]);
    assert_eq!(split_fields(&chars("/"), '/'), vec![chars(""), chars("")]);
    assert_eq!(split_fields(&chars("a//b/"), '/'), vec![chars("a"), chars(""), chars("b"), chars("")]);
}

#[test]
fn split_fields_agrees_with_the_standard_library() {
    for text in ["", "/", "a/b", "//", "10.0.0.0/24", "x/y/z/", "/lead", "no separator"] {
        let want: Vec<Vec<char>> = text.split('/').map(|p| p.chars().collect()).collect();
        assert_eq!(split_fields(&chars(text), '/'), want, "{}", text);
    }
}

#[test]
fn parse_number_reads_digits_up_to_the_limit() {
    assert_eq!(parse_number(&chars("0"), 0, 32), Some(0));
    assert_eq!(parse_number(&chars("32"), 0, 32), Some(32));
    assert_eq!(parse_number(&chars("33"), 0, 32), None);
    assert_eq!(parse_number(&chars("255"), 0, 255), Some(255));
    assert_eq!(parse_number(&chars("256"), 0, 255), None);
    assert_eq!(parse_number(&chars("0007"), 0, 255), Some(7));
    assert_eq!(parse_number(&chars("4294967295"), 0, u32::MAX), Some(u32::MAX));
    assert_eq!(parse_number(&chars("4294967296"), 0, u32::MAX), None);
    assert_eq!(parse_number(&chars("123456789012345678901234567890"), 0, u32::MAX), None);
}

#[test]
fn parse_number_starts_where_told() {
    assert_eq!(parse_number(&chars("+24"), 1, 32), Some(24));
    assert_eq!(parse_number(&chars("ab12"), 2, 255), Some(12));
    assert_eq!(parse_number(&chars("12"), 2, 255), None);
}

#[test]
fn parse_number_rejects_what_is_no_number() {
    assert_eq!(parse_number(&chars(""), 0, 255), None);
    assert_eq!(parse_number(&chars("1a"), 0, 255), None);
    assert_eq!(parse_number(&chars("a1"), 0, 255), None);
    assert_eq!(parse_number(&chars("-1"), 0, 255), None);
    assert_eq!(parse_number(&chars("+1"), 0, 255), None);
    assert_eq!(parse_number(&chars("1 "), 0, 255), None);
    assert_eq!(parse_number(&chars("999a"), 0, 255), None);
}

#[test]
fn parse_signed_reads_signed_numbers() {
    assert_eq!(parse_signed("0"), Some(0));
    assert_eq!(parse_signed("24"), Some(24));
    assert_eq!(parse_signed("+24"), Some(24));
    assert_eq!(parse_signed("-24"), Some(-24));
    assert_eq!(parse_signed("-0"), Some(0));
    assert_eq!(parse_signed("007"), Some(7));
    assert_eq!(parse_signed("2147483647"), Some(i32::MAX));
    assert_eq!(parse_signed("-2147483648"), Some(i32::MIN));
}

#[test]
fn parse_signed_rejects_what_is_no_number() {
    for text in ["", "+", "-", "2147483648", "-2147483649", "1.5", " 1", "1 ", "--1", "+-1", "1_000", "abc"] {
        assert_eq!(parse_signed(text), None, "{}", text);
    }
}

#[test]
fn parse_signed_agrees_with_the_standard_library() {
    for text in ["", "+", "-", "12", "-12", "+12", "0012", "2147483647", "2147483648", "-2147483648", "-2147483649", "9999999999999", "1e3", "\u{0663}"] {
        assert_eq!(parse_signed(text), text.parse::<i32>().ok(), "{}", text);
    }
}

use tonnelle::text::{chars_of, parse_decimal_u32, split_chars, split_words, string_from_chars};

fn cv(s: &str) -> Vec<char> {
    s.chars().collect()
}

fn strings(v: Vec<Vec<char>>) -> Vec<String> {
    v.into_iter().map(|p| p.into_iter().collect()).collect()
}

#[test]
fn split_keeps_empty_pieces() {
    assert_eq!(strings(split_chars(&cv("a/b"), '/')), vec!["a", "b"]);
    assert_eq!(strings(split_chars(&cv(""), '/')), vec![""]);
    assert_eq!(strings(split_chars(&cv("/a//"), '/')), vec!["", "a", "", ""]);
}

#[test]
fn words_skip_white_space() {
    assert_eq!(strings(split_words(&cv("  a bc\t\nd  "))), vec!["a", "bc", "d"]);
    assert_eq!(strings(split_words(&cv(""))), Vec::<String>::new());
    assert_eq!(strings(split_words(&cv("x\u{a0}y\u{2009}z"))), vec!["x", "y", "z"]);
    assert_eq!(strings(split_words(&cv("x\u{200b}y"))), vec!["x\u{200b}y"]);
}

#[test]
fn decimal_u32_like_from_str() {
    assert_eq!(parse_decimal_u32(&cv("0")), Some(0));
    assert_eq!(parse_decimal_u32(&cv("+12")), Some(12));
    assert_eq!(parse_decimal_u32(&cv("007")), Some(7));
    assert_eq!(parse_decimal_u32(&cv("4294967295")), Some(u32::MAX));
    assert_eq!(parse_decimal_u32(&cv("4294967296")), None);
    assert_eq!(parse_decimal_u32(&cv("99999999999999999999999")), None);
    assert_eq!(parse_decimal_u32(&cv("")), None);
    assert_eq!(parse_decimal_u32(&cv("+")), None);
    assert_eq!(parse_decimal_u32(&cv("-1")), None);
    assert_eq!(parse_decimal_u32(&cv("1 ")), None);
    assert_eq!(parse_decimal_u32(&cv("١")), None);
}

#[test]
fn chars_and_strings_round_trip() {
    let c = chars_of("h\u{e9}llo \u{1f600}");
    assert_eq!(c, cv("h\u{e9}llo \u{1f600}"));
    assert_eq!(string_from_chars(&c), "h\u{e9}llo \u{1f600}");
}

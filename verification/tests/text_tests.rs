use mus_search::text::{
    append_chars, chars_of, contains, find_from, parse_i32, push_decimal, replace_pattern,
    split_char, split_pattern, string_of,
};

fn chars(s: &str) -> Vec<char> {
    s.chars().collect()
}

#[test]
fn chars_and_strings_round_trip() {
    assert_eq!(chars_of("héllo"), vec!['h', 'é', 'l', 'l', 'o']);
    assert_eq!(string_of(&['a', 'b']), "ab");
    let mut s = String::from("x");
    append_chars(&mut s, &['y', 'z']);
    assert_eq!(s, "xyz");
}

#[test]
fn find_and_contains() {
    let s = chars("abcabc");
    assert_eq!(find_from(&s, &['c', 'a'], 0), Some(2));
    assert_eq!(find_from(&s, &['c'], 3), Some(5));
    assert_eq!(find_from(&s, &['x'], 0), None);
    assert!(contains(&s, &['b', 'c']));
    assert!(!contains(&s, &['c', 'b']));
}

#[test]
fn split_pattern_like_str_split() {
    let s = chars("a\r\nb\r\n\r\nc");
    let pieces = split_pattern(&s, &['\r', '\n']);
    let expected: Vec<Vec<char>> = "a\r\nb\r\n\r\nc".split("\r\n").map(|p| p.chars().collect()).collect();
    assert_eq!(pieces, expected);
    assert_eq!(split_pattern(&[], &['x']), vec![Vec::<char>::new()]);
}

#[test]
fn split_char_like_str_split() {
    let s = chars("./data/x.pdf/page/3");
    assert_eq!(split_char(&s, '/'), vec![".", "data", "x.pdf", "page", "3"]);
    assert_eq!(split_char(&chars("/a/"), '/'), vec!["", "a", ""]);
}

#[test]
fn replace_like_str_replace() {
    assert_eq!(replace_pattern(&chars("docx/a.docx"), &chars("docx"), &chars("pdf")), "pdf/a.pdf");
    assert_eq!(replace_pattern(&chars("aaa"), &chars("aa"), &chars("b")), "ba");
}

#[test]
fn decimal_notation() {
    let mut s = String::from("p");
    push_decimal(&mut s, 0);
    push_decimal(&mut s, 1207);
    assert_eq!(s, "p01207");
}

#[test]
fn parse_i32_like_str_parse() {
    for s in ["42", "-7", "+5", "", "-", "+", "2147483647", "2147483648", "-2147483648", "-2147483649", "12a", " 1", "007", "99999999999999999999"] {
        assert_eq!(parse_i32(&chars(s)), s.parse::<i32>().ok(), "input {:?}", s);
    }
}

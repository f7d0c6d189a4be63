use beamer_quickie::text::{chars_of, copy_range, count_char_before, find_chars, push_decimal, rfind_char};

fn chars(s: &str) -> Vec<char> {
    s.chars().collect()
}

#[test]
fn chars_and_strings_roundtrip() {
    let s = "a\u{e9}\u{22ee}z";
    let v = chars_of(s);
    assert_eq!(v, vec!['a', '\u{e9}', '\u{22ee}', 'z']);
    assert_eq!(v.iter().collect::<String>(), s);
}

#[test]
fn find_chars_finds_first_from() {
    let s = chars("abcabc");
    let pat = chars("bc");
    assert_eq!(find_chars(&s, &pat, 0), Some(1));
    assert_eq!(find_chars(&s, &pat, 2), Some(4));
    assert_eq!(find_chars(&s, &pat, 5), None);
    assert_eq!(find_chars(&s, &pat, 6), None);
    assert_eq!(find_chars(&s, &chars("x"), 0), None);
}

#[test]
fn rfind_char_finds_last_before() {
    let s = chars("a\nb\nc");
    assert_eq!(rfind_char(&s, '\n', 5), Some(3));
    assert_eq!(rfind_char(&s, '\n', 3), Some(1));
    assert_eq!(rfind_char(&s, '\n', 1), None);
}

#[test]
fn count_and_copy() {
    let s = chars("a\nb\nc");
    assert_eq!(count_char_before(&s, '\n', 5), 2);
    assert_eq!(count_char_before(&s, '\n', 2), 1);
    assert_eq!(count_char_before(&s, '\n', 0), 0);
    assert_eq!(copy_range(&s, 2, 5), chars("b\nc"));
    assert_eq!(copy_range(&s, 3, 3), Vec::<char>::new());
}

#[test]
fn decimal_numerals() {
    for n in [0u64, 7, 10, 99, 100, 12345, u64::MAX] {
        let mut v = vec!['x'];
        push_decimal(&mut v, n);
        let expected: Vec<char> = format!("x{}", n).chars().collect();
        assert_eq!(v, expected);
    }
}

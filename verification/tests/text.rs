use zh_manhua::text::{
    ascii_lower_exec, before_char_exec, chars_of, contains_exec, decimal_exec, ends_with_exec,
    numeral_exec, replace_all_exec, split_last_exec, starts_with_exec, string_of, trim_exec,
    trim_start_char_exec,
};

fn s(v: &[char]) -> String {
    v.iter().collect()
}

#[test]
fn chars_round_trip() {
    let v = chars_of("a\u{4f5c}b");
    assert_eq!(v, vec!['a', '\u{4f5c}', 'b']);
    assert_eq!(string_of(&v), "a\u{4f5c}b");
}

#[test]
fn searching() {
    let h = chars_of("hello world");
    assert!(contains_exec(&h, &chars_of("o w")));
    assert!(!contains_exec(&h, &chars_of("ow")));
    assert!(starts_with_exec(&h, &chars_of("hell")));
    assert!(!starts_with_exec(&h, &chars_of("ello")));
    assert!(ends_with_exec(&h, &chars_of("world")));
    assert!(!ends_with_exec(&h, &chars_of("hello world!")));
    assert!(contains_exec(&h, &[]));
}

#[test]
fn splitting_and_replacing() {
    assert_eq!(s(&split_last_exec(&chars_of("a--b--c"), &chars_of("--"))), "c");
    assert_eq!(s(&split_last_exec(&chars_of("a---"), &chars_of("--"))), "-");
    assert_eq!(s(&before_char_exec(&chars_of("x/y/z"), '/')), "x");
    assert_eq!(s(&replace_all_exec(&chars_of("aaa"), &chars_of("aa"), &chars_of("b"))), "ba");
    assert_eq!(s(&replace_all_exec(&chars_of("abc"), &chars_of("z"), &chars_of("y"))), "abc");
}

#[test]
fn trimming_and_case() {
    assert_eq!(s(&trim_exec(&chars_of("\u{3000} a b \t\n"))), "a b");
    assert_eq!(s(&trim_exec(&chars_of("   "))), "");
    assert_eq!(s(&trim_start_char_exec(&chars_of("//a/b"), '/')), "a/b");
    assert_eq!(s(&ascii_lower_exec(&chars_of("AbC-\u{c4}Z"))), "abc-\u{c4}z");
}

#[test]
fn numbers_in_decimal() {
    assert_eq!(s(&numeral_exec(0)), "0");
    assert_eq!(s(&numeral_exec(907)), "907");
    assert_eq!(s(&decimal_exec(-42)), "-42");
    assert_eq!(s(&decimal_exec(i64::MAX)), i64::MAX.to_string());
    assert_eq!(s(&decimal_exec(i32::MIN as i64)), i32::MIN.to_string());
}

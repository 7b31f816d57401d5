use clip_history::text::{contains_text, fingerprint, highlight};

#[test]
fn fingerprint_is_md5_hex() {
    assert_eq!(fingerprint("123456"), "e10adc3949ba59abbe56e057f20f883e");
    assert_eq!(fingerprint(""), "d41d8cd98f00b204e9800998ecf8427e");
    assert_ne!(fingerprint("a"), fingerprint("b"));
}

#[test]
fn highlight_marks_every_occurrence() {
    assert_eq!(highlight("a", "banana"), "b<mark>a</mark>n<mark>a</mark>n<mark>a</mark>");
    assert_eq!(highlight("an", "banana"), "b<mark>an</mark><mark>an</mark>a");
    assert_eq!(highlight("aa", "aaa"), "<mark>aa</mark>a");
    assert_eq!(highlight("zz", "banana"), "banana");
    assert_eq!(highlight("", "abc"), "abc");
    assert_eq!(highlight("é", "café é"), "caf<mark>é</mark> <mark>é</mark>");
}

#[test]
fn contains_is_literal_substring() {
    assert!(contains_text("banana", "nan"));
    assert!(contains_text("banana", ""));
    assert!(contains_text("", ""));
    assert!(!contains_text("banana", "nab"));
    assert!(!contains_text("ab", "abc"));
    assert!(contains_text("abc", "abc"));
}

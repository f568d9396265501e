use wiki::sanitize::{clean_stem, is_clean_stem};

#[test]
fn test_is_clean_stem() {
    assert!(is_clean_stem("foo-bar"));
    assert!(!is_clean_stem("Foo Bar"));
    assert!(is_clean_stem("foo_bar"));
    assert!(is_clean_stem("foo-bar-1"));
    assert!(!is_clean_stem("hello!"));
    assert!(!is_clean_stem(""));
    assert!(!is_clean_stem("-foo"));
    assert!(!is_clean_stem("foo-"));
    assert!(!is_clean_stem("foo--bar"));
    assert!(is_clean_stem("abc123"));
}

#[test]
fn test_clean_stem_idempotent() {
    for x in &["Foo Bar", "hello!", "weird   spacing", "MiXeD-CaSe", "a"] {
        let once = clean_stem(x);
        let twice = clean_stem(&once);
        assert_eq!(once, twice, "not idempotent for {:?}", x);
    }
}

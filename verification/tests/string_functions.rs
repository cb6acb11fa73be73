use rusql::string_functions::mysql_substring;

#[test]
fn substring_abc_1_2() {
    assert_eq!(mysql_substring("abc", 1, Some(2)), "ab");
    assert_eq!(mysql_substring("abc", 2, None), "bc");
    assert_eq!(mysql_substring("abc", -2, Some(1)), "b");
}

#[test]
fn substring_edges() {
    assert_eq!(mysql_substring("abc", 0, None), "");
    assert_eq!(mysql_substring("abc", 1, Some(0)), "");
    assert_eq!(mysql_substring("abc", 4, None), "");
    assert_eq!(mysql_substring("abc", -5, Some(2)), "ab");
    assert_eq!(mysql_substring("héllo", 2, Some(i64::MAX)), "éllo");
}

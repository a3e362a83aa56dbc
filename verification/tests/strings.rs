use uos::string::cmp;

#[test]
fn equal_strings_compare_equal() {
    assert_eq!(cmp("hello", "hello"), 0);
    assert_eq!(cmp("", ""), 0);
    assert_eq!(cmp("a", "a"), 0);
}

#[test]
fn shorter_sorts_before_longer() {
    // length decides first, whatever the bytes are
    assert_eq!(cmp("zz", "aaa"), -1);
    assert_eq!(cmp("aaa", "zz"), 1);
    assert_eq!(cmp("", "a"), -1);
    assert_eq!(cmp("a", ""), 1);
}

#[test]
fn equal_length_compares_bytewise() {
    assert_eq!(cmp("abc", "abd"), -1);
    assert_eq!(cmp("abd", "abc"), 1);
    assert_eq!(cmp("ba", "ab"), 1);
    assert_eq!(cmp("ab", "ba"), -1);
}

#[test]
fn first_difference_decides() {
    assert_eq!(cmp("axxx", "ayyy"), -1);
    assert_eq!(cmp("commander", "commandes"), -1);
}

use island::path::{compare_paths, file_name, is_absolute, join, parent, paths_equal, starts_with};
use island::text::{decimal_string, replace_str, split_str, trim_nul_end_str, Order};

#[test]
fn path_operations_follow_components() {
    assert!(starts_with("/foo/bar", "/foo"));
    assert!(starts_with("/foo/bar", "/foo/"));
    assert!(!starts_with("/foobar", "/foo"));
    assert!(paths_equal("/a//b/./c", "/a/b/c"));
    assert!(!paths_equal("/a/b/../c", "/a/c"));
    assert_eq!(compare_paths("/bar", "/foo"), Order::Less);
    assert_eq!(compare_paths("/foo", "/foo/bar"), Order::Less);
    assert_eq!(compare_paths("/foo/bar", "/foo"), Order::Greater);
    assert!(is_absolute("/x") && !is_absolute("x"));
}

#[test]
fn join_parent_and_file_name() {
    assert_eq!(join("/usr", "lib"), "/usr/lib");
    assert_eq!(join("/usr/", "lib"), "/usr/lib");
    assert_eq!(join("/usr", "/etc"), "/etc");
    assert_eq!(parent("/usr/lib/libc.so"), Some("/usr/lib".to_string()));
    assert_eq!(parent("/usr/lib/"), Some("/usr".to_string()));
    assert_eq!(parent("/"), None);
    assert_eq!(parent("lib"), Some("".to_string()));
    assert_eq!(file_name("/lib64/ld-linux-x86-64.so.2"), Some("ld-linux-x86-64.so.2".to_string()));
    assert_eq!(file_name("/usr/.."), None);
    assert_eq!(file_name("/"), None);
}

#[test]
fn text_operations() {
    assert_eq!(split_str("a::b", ':'), vec!["a", "", "b"]);
    assert_eq!(split_str("", ':'), vec![""]);
    assert_eq!(replace_str("aaa", "aa", "b"), "ba");
    assert_eq!(replace_str("x$Oy$O", "$O", "/d"), "x/dy/d");
    assert_eq!(trim_nul_end_str("ld\0\0"), "ld");
    assert_eq!(decimal_string(0), "0");
    assert_eq!(decimal_string(1000), "1000");
}

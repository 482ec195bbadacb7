use ext2fs::{add, canonicalize, split_parent_name, split_path};

#[test]
fn test_path_canonicalize() {
    assert_eq!(canonicalize(""), "");
    assert_eq!(canonicalize("///"), "/");
    assert_eq!(canonicalize("//a//.//b///c//"), "/a/b/c");
    assert_eq!(canonicalize("/a/../"), "/");
    assert_eq!(canonicalize("/a/../..///"), "/");
    assert_eq!(canonicalize("a/../"), "");
    assert_eq!(canonicalize("a/..//.."), "");
    assert_eq!(canonicalize("././a"), "a");
    assert_eq!(canonicalize(".././a"), "a");
    assert_eq!(canonicalize("/././a"), "/a");
    assert_eq!(canonicalize("/abc/../abc"), "/abc");
    assert_eq!(canonicalize("/test"), "/test");
    assert_eq!(canonicalize("/test/"), "/test");
    assert_eq!(canonicalize("test/"), "test");
    assert_eq!(canonicalize("test"), "test");
    assert_eq!(canonicalize("/test//"), "/test");
    assert_eq!(canonicalize("/test/foo"), "/test/foo");
    assert_eq!(canonicalize("/test/foo/"), "/test/foo");
    assert_eq!(canonicalize("/test/foo/bar"), "/test/foo/bar");
    assert_eq!(canonicalize("/test/foo/bar//"), "/test/foo/bar");
    assert_eq!(canonicalize("/test//foo/bar//"), "/test/foo/bar");
    assert_eq!(canonicalize("/test//./foo/bar//"), "/test/foo/bar");
    assert_eq!(canonicalize("/test//./.foo/bar//"), "/test/.foo/bar");
    assert_eq!(canonicalize("/test//./..foo/bar//"), "/test/..foo/bar");
    assert_eq!(canonicalize("/test//./../foo/bar//"), "/foo/bar");
    assert_eq!(canonicalize("/test/../foo"), "/foo");
    assert_eq!(canonicalize("/test/bar/../foo"), "/test/foo");
    assert_eq!(canonicalize("../foo"), "foo");
    assert_eq!(canonicalize("../foo/"), "foo");
    assert_eq!(canonicalize("/../foo"), "/foo");
    assert_eq!(canonicalize("/../foo/"), "/foo");
    assert_eq!(canonicalize("/../../foo"), "/foo");
    assert_eq!(canonicalize("/bleh/../../foo"), "/foo");
    assert_eq!(canonicalize("/bleh/bar/../../foo"), "/foo");
    assert_eq!(canonicalize("/bleh/bar/../../foo/.."), "/");
    assert_eq!(canonicalize("/bleh/bar/../../foo/../meh"), "/meh");
}

#[test]
fn it_works() {
    let result = add(2, 2);
    assert_eq!(result, 4);
}

#[test]
fn add_takes_zero() {
    assert_eq!(add(0, 0), 0);
    assert_eq!(add(7, 0), 7);
    assert_eq!(add(usize::MAX - 1, 1), usize::MAX);
}

#[test]
fn canonicalize_keeps_unicode_names() {
    assert_eq!(canonicalize("/é/./ü/../ß"), "/é/ß");
}

#[test]
fn split_path_of_absolute_path() {
    assert_eq!(split_path("/a//b/./c"), vec!["", "a", "b", "c"]);
}

#[test]
fn split_path_of_relative_path() {
    assert_eq!(split_path("a/b/../c"), vec!["a", "c"]);
}

#[test]
fn split_path_of_root_and_of_nothing() {
    assert_eq!(split_path("/"), vec!["", ""]);
    assert_eq!(split_path(""), vec![""]);
}

#[test]
fn split_parent_name_of_nested_path() {
    assert_eq!(
        split_parent_name("/a/b/c"),
        (Some(String::from("/a/b")), String::from("c"))
    );
    assert_eq!(
        split_parent_name("a/b"),
        (Some(String::from("a")), String::from("b"))
    );
}

#[test]
fn split_parent_name_without_parent() {
    assert_eq!(split_parent_name("name"), (None, String::from("name")));
    assert_eq!(split_parent_name("/name"), (None, String::from("name")));
    assert_eq!(split_parent_name("/"), (None, String::from("")));
}

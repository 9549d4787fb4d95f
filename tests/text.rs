use dhs::{find_last_dot, join_path, padded_decimal, push_decimal, split_name};

#[test]
fn decimals() {
    let mut s = String::from("n=");
    push_decimal(&mut s, 0);
    assert_eq!(s, "n=0");
    let mut t = String::new();
    push_decimal(&mut t, u64::MAX);
    assert_eq!(t, u64::MAX.to_string());
    assert_eq!(padded_decimal(7, 2), "07");
    assert_eq!(padded_decimal(123, 2), "123");
    assert_eq!(padded_decimal(0, 0), "0");
}

#[test]
fn names_split_like_paths() {
    assert_eq!(split_name("img.png"), ("img", Some("png")));
    assert_eq!(split_name("a.tar.gz"), ("a.tar", Some("gz")));
    assert_eq!(split_name(".bashrc"), (".bashrc", None));
    assert_eq!(split_name(".."), ("..", None));
    assert_eq!(split_name("foo."), ("foo", Some("")));
    assert_eq!(split_name("plain"), ("plain", None));
    assert_eq!(find_last_dot("a.b.c"), Some(3));
    assert_eq!(find_last_dot("abc"), None);
}

#[test]
fn paths_join_with_one_separator() {
    assert_eq!(join_path("a", "b"), "a/b");
    assert_eq!(join_path("a/", "b"), "a/b");
    assert_eq!(join_path("", "b"), "b");
}

use treesync::path::{
    contains_separator, dir_prefix_of, ends_dir_prefix, file_name_of, join, push_separator, SEPARATOR,
};

#[test]
fn file_name_is_what_follows_the_last_separator() {
    assert_eq!(file_name_of("a/b/x.txt"), "x.txt");
    assert_eq!(file_name_of("x.txt"), "x.txt");
    assert_eq!(file_name_of("a/b/"), "");
    assert_eq!(file_name_of(""), "");
    assert_eq!(file_name_of("/"), "");
    assert_eq!(file_name_of("a//b"), "b");
}

#[test]
fn file_name_counts_characters_not_bytes() {
    assert_eq!(file_name_of("données/été.txt"), "été.txt");
    assert_eq!(dir_prefix_of("données/été.txt"), "données/");
    assert_eq!(file_name_of("日本/語"), "語");
}

#[test]
fn dir_prefix_keeps_its_closing_separator() {
    assert_eq!(dir_prefix_of("a/b/x.txt"), "a/b/");
    assert_eq!(dir_prefix_of("x.txt"), "");
    assert_eq!(dir_prefix_of("a/b/"), "a/b/");
    assert_eq!(dir_prefix_of("/x"), "/");
    assert_eq!(dir_prefix_of(""), "");
}

#[test]
fn prefix_and_name_make_the_path() {
    for path in ["a/b/x.txt", "x", "", "a/", "/a", "a//b", "över/ä"] {
        let mut whole = dir_prefix_of(path);
        whole.push_str(&file_name_of(path));
        assert_eq!(whole, path);
        assert!(!contains_separator(&file_name_of(path)));
        assert!(ends_dir_prefix(&dir_prefix_of(path)));
    }
}

#[test]
fn separator_is_found_anywhere() {
    assert!(contains_separator("a/b"));
    assert!(contains_separator("/"));
    assert!(contains_separator("ab/"));
    assert!(!contains_separator("ab"));
    assert!(!contains_separator(""));
    assert!(!contains_separator("a\\b"));
}

#[test]
fn dir_prefix_is_empty_or_closed() {
    assert!(ends_dir_prefix(""));
    assert!(ends_dir_prefix("a/"));
    assert!(ends_dir_prefix("/"));
    assert!(!ends_dir_prefix("a"));
    assert!(!ends_dir_prefix("a/b"));
}

#[test]
fn join_puts_one_separator_between() {
    assert_eq!(join("dst", "a/x.txt"), "dst/a/x.txt");
    assert_eq!(join("dst/", "a/x.txt"), "dst/a/x.txt");
    assert_eq!(join("/", "x"), "/x");
    assert_eq!(join("", "x"), "x");
    assert_eq!(join("dst", ""), "dst/");
    assert_eq!(join("/srv/data", "b/y.txt"), "/srv/data/b/y.txt");
}

#[test]
fn separator_closes_a_prefix() {
    let mut dir = String::from("a/b");
    push_separator(&mut dir);
    assert_eq!(dir, "a/b/");
    let mut root = String::new();
    push_separator(&mut root);
    assert_eq!(root, "/");
    assert_eq!(root, SEPARATOR.to_string());
}

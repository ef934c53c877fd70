use md_editor::paths::{extension, file_name, is_hidden, normalize_separators};

#[test]
fn file_names_follow_path_components() {
    assert_eq!(file_name("a/b.md"), Some("b.md".to_string()));
    assert_eq!(file_name("b.md"), Some("b.md".to_string()));
    assert_eq!(file_name("a/b/"), Some("b".to_string()));
    assert_eq!(file_name("foo.txt/."), Some("foo.txt".to_string()));
    assert_eq!(file_name("foo.txt/.//"), Some("foo.txt".to_string()));
    assert_eq!(file_name("foo/.."), None);
    assert_eq!(file_name("/"), None);
    assert_eq!(file_name(""), None);
}

#[test]
fn extensions_follow_the_last_dot() {
    assert_eq!(extension("a/b.tar.gz"), Some("gz".to_string()));
    assert_eq!(extension("a/.hidden"), None);
    assert_eq!(extension("a/.hidden.md"), Some("md".to_string()));
    assert_eq!(extension("noext"), None);
    assert_eq!(extension("trailing."), Some("".to_string()));
}

#[test]
fn hidden_components_and_separators() {
    assert!(is_hidden(".git/config"));
    assert!(is_hidden("a/.b/c.md"));
    assert!(!is_hidden("a/b.c/d.md"));
    assert_eq!(normalize_separators("a\\b\\c.md"), "a/b/c.md");
}

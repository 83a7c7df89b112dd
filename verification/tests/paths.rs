use linkfield::paths::{extension, file_name, join, split_components, starts_with, to_chars};

fn strings(items: &[&str]) -> Vec<String> {
    items.iter().map(|s| s.to_string()).collect()
}

#[test]
fn split_plain_path() {
    assert_eq!(split_components("a/b/c.txt"), strings(&["a", "b", "c.txt"]));
}

#[test]
fn split_drops_empty_names() {
    assert_eq!(split_components("/a//b/"), strings(&["a", "b"]));
    assert_eq!(split_components(""), Vec::<String>::new());
    assert_eq!(split_components("///"), Vec::<String>::new());
    assert_eq!(split_components("x"), strings(&["x"]));
}

#[test]
fn split_keeps_unicode_names() {
    assert_eq!(split_components("données/été.txt"), strings(&["données", "été.txt"]));
}

#[test]
fn file_name_is_last_component() {
    assert_eq!(file_name("dir/a.txt"), Some("a.txt".to_string()));
    assert_eq!(file_name("dir/sub/"), Some("sub".to_string()));
    assert_eq!(file_name("/"), None);
    assert_eq!(file_name(""), None);
}

#[test]
fn extension_follows_last_dot() {
    assert_eq!(extension("a.txt"), Some("txt".to_string()));
    assert_eq!(extension("archive.tar.gz"), Some("gz".to_string()));
    assert_eq!(extension("trailing."), Some(String::new()));
}

#[test]
fn extension_is_absent() {
    assert_eq!(extension("Makefile"), None);
    assert_eq!(extension(".bashrc"), None);
    assert_eq!(extension(".."), None);
    assert_eq!(extension(""), None);
}

#[test]
fn starts_with_compares_characters() {
    assert!(starts_with("report-final.txt", "report"));
    assert!(starts_with("abc", "abc"));
    assert!(starts_with("abc", ""));
    assert!(!starts_with("abc", "abd"));
    assert!(!starts_with("ab", "abc"));
}

#[test]
fn join_uses_single_separators() {
    let names = strings(&["a", "b", "c"]);
    assert_eq!(join(&names, 3), "a/b/c");
    assert_eq!(join(&names, 2), "a/b");
    assert_eq!(join(&names, 1), "a");
    assert_eq!(join(&names, 0), "");
}

#[test]
fn to_chars_gives_each_character() {
    assert_eq!(to_chars("aé/"), vec!['a', 'é', '/']);
}

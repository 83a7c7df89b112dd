use linkfield::ignore_config::{trim, IgnoreConfig, IgnoreError};

#[test]
fn empty_config_ignores_nothing() {
    let config = IgnoreConfig::empty();
    assert!(config.patterns().is_empty());
    assert!(!config.is_ignored("foo.tmp"));
    assert!(!config.is_ignored_as("target", true));
}

#[test]
fn patterns_are_kept_in_order() {
    let config = IgnoreConfig::new(&["*.tmp", "target/"]).unwrap();
    assert_eq!(config.patterns(), ["*.tmp".to_string(), "target/".to_string()]);
}

#[test]
fn directory_pattern_needs_a_directory() {
    let config = IgnoreConfig::new(&["target/"]).unwrap();
    assert!(config.is_ignored_as("target", true));
    assert!(!config.is_ignored_as("target", false));
    assert!(config.is_ignored_as("target/debug/build.log", false));
    assert!(config.is_ignored_as("/abs/project/target/x", false));
    assert!(!config.is_ignored_as("targets/x", false));
}

#[test]
fn negated_pattern_keeps_a_path() {
    let config = IgnoreConfig::new(&["*.tmp", "!keep.tmp"]).unwrap();
    assert!(config.is_ignored_as("a.tmp", false));
    assert!(!config.is_ignored_as("keep.tmp", false));
}

#[test]
fn verdict_on_path_comes_before_its_directories() {
    let config = IgnoreConfig::new(&["build/", "!build/keep.txt"]).unwrap();
    assert!(config.is_ignored_as("build/other.txt", false));
    assert!(!config.is_ignored_as("build/keep.txt", false));
}

#[test]
fn comment_and_blank_lines_are_accepted() {
    let config = IgnoreConfig::new(&["# comment", "", "*.log"]).unwrap();
    assert_eq!(config.patterns().len(), 3);
    assert!(config.is_ignored_as("x.log", false));
    assert!(!config.is_ignored_as("# comment", false));
}

#[test]
fn pattern_that_does_not_parse_is_refused() {
    match IgnoreConfig::new(&["*.ok", "a[z-a]"]) {
        Err(IgnoreError::Pattern { index, message }) => {
            assert_eq!(index, 1);
            assert!(!message.is_empty());
        }
        other => panic!("expected a pattern error, got {:?}", other.map(|_| ())),
    }
}

#[test]
fn first_bad_pattern_is_reported() {
    match IgnoreConfig::new(&["a[z-a]", "b[z-a]"]) {
        Err(IgnoreError::Pattern { index, .. }) => assert_eq!(index, 0),
        other => panic!("expected a pattern error, got {:?}", other.map(|_| ())),
    }
}

#[test]
fn directory_on_disk_is_matched_as_directory() {
    let config = IgnoreConfig::new(&["tmp/"]).unwrap();
    assert!(config.is_ignored("/tmp"));
    assert!(!config.is_ignored("/tmp-that-is-not-there"));
    assert!(!config.is_ignored_as("/tmp", false));
}

#[test]
fn lines_of_a_patterns_file() {
    let lines: Vec<String> =
        ["# build output", "  target/  ", "", "\t*.tmp", "   ", "  # indented comment", "!keep.tmp"]
            .iter()
            .map(|s| s.to_string())
            .collect();
    let config = IgnoreConfig::from_lines(&lines).unwrap();
    assert_eq!(
        config.patterns(),
        ["target/".to_string(), "*.tmp".to_string(), "!keep.tmp".to_string()]
    );
    assert!(config.is_ignored_as("target/x", false));
    assert!(config.is_ignored_as("a.tmp", false));
    assert!(!config.is_ignored_as("keep.tmp", false));
}

#[test]
fn bad_line_of_a_patterns_file_is_refused_by_its_place_among_patterns() {
    let lines: Vec<String> =
        ["# c", "*.ok", "", "a[z-a]"].iter().map(|s| s.to_string()).collect();
    match IgnoreConfig::from_lines(&lines) {
        Err(IgnoreError::Pattern { index, .. }) => assert_eq!(index, 1),
        other => panic!("expected a pattern error, got {:?}", other.map(|_| ())),
    }
}

#[test]
fn trim_takes_white_space_off_both_ends() {
    assert_eq!(trim("  a b \t\n"), "a b");
    assert_eq!(trim("\u{a0}x\u{3000}"), "x");
    assert_eq!(trim("x"), "x");
    assert_eq!(trim(" \t "), "");
    assert_eq!(trim(""), "");
}

#[test]
fn error_as_text() {
    let error = IgnoreError::Build { message: "no".to_string() };
    assert_eq!(error.to_text(), "no");
    let error = IgnoreError::Pattern { index: 2, message: "bad glob".to_string() };
    assert_eq!(error.to_text(), "bad glob");
}

#[test]
fn comments_and_blank_lines_alone_ignore_nothing() {
    let config = IgnoreConfig::new(&["# only a note", "", "   "]).unwrap();
    assert_eq!(config.patterns().len(), 3);
    assert!(!config.is_ignored_as("anything", false));
    assert!(!config.is_ignored_as("# only a note", false));
}

#[test]
fn white_space_at_the_end_of_a_pattern_is_not_kept() {
    let config = IgnoreConfig::new(&["*.tmp  ", "name\\ "]).unwrap();
    assert!(config.is_ignored_as("a.tmp", false));
    assert!(!config.is_ignored_as("a.tmp  ", false));
    assert!(config.is_ignored_as("name ", false));
    assert!(!config.is_ignored_as("name", false));
}

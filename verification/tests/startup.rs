use linkfield::args::{join_path, parent_of, resolve_args, ArgKind};
use linkfield::platform::{handle_platform_startup, StartupAction};
use linkfield::windows_registry::{association_entries, is_registered_value};

fn pair(a: &str, b: &str) -> (String, String) {
    (a.to_string(), b.to_string())
}

#[test]
fn file_argument_is_the_database() {
    assert_eq!(resolve_args(Some(("data/store.redb", ArgKind::File))), pair("data/store.redb", "data"));
    assert_eq!(resolve_args(Some(("/store.redb", ArgKind::File))), pair("/store.redb", "/"));
    assert_eq!(resolve_args(Some(("store.redb", ArgKind::File))), pair("store.redb", "."));
}

#[test]
fn directory_argument_is_watched() {
    assert_eq!(
        resolve_args(Some(("projects/demo", ArgKind::Directory))),
        pair("projects/demo/linkfield.redb", "projects/demo")
    );
    assert_eq!(resolve_args(Some(("/", ArgKind::Directory))), pair("/linkfield.redb", "/"));
}

#[test]
fn other_or_no_argument_gives_the_defaults() {
    assert_eq!(resolve_args(Some(("nowhere", ArgKind::Other))), pair("test.redb", "."));
    assert_eq!(resolve_args(None), pair("test.redb", "."));
}

#[test]
fn parent_and_join() {
    assert_eq!(parent_of("a/b/c.txt"), "a/b");
    assert_eq!(parent_of("c.txt"), ".");
    assert_eq!(parent_of("/c.txt"), "/");
    assert_eq!(parent_of(""), ".");
    assert_eq!(join_path("a/b", "c"), "a/b/c");
    assert_eq!(join_path("a/b/", "c"), "a/b/c");
    assert_eq!(join_path("", "c"), "/c");
}

#[test]
fn registration_at_startup() {
    assert_eq!(handle_platform_startup(true, false), StartupAction::RegisterExtension);
    assert_eq!(handle_platform_startup(true, true), StartupAction::Nothing);
    assert_eq!(handle_platform_startup(false, false), StartupAction::Nothing);
    assert_eq!(handle_platform_startup(false, true), StartupAction::Nothing);
}

#[test]
fn registry_values_of_the_file_type() {
    let entries = association_entries("C:\\Tools\\linkfield.exe");
    assert_eq!(
        entries,
        vec![
            pair("Software\\Classes\\.redb", "Linkfield.redb"),
            pair("Software\\Classes\\Linkfield.redb", "Linkfield Database File"),
            pair(
                "Software\\Classes\\Linkfield.redb\\shell\\open\\command",
                "\"C:\\Tools\\linkfield.exe\" \"%1\""
            ),
            pair(
                "Software\\Classes\\Linkfield.redb\\DefaultIcon",
                "\"C:\\Tools\\linkfield.exe\",0"
            ),
        ]
    );
    assert!(is_registered_value("Linkfield.redb"));
    assert!(!is_registered_value("Other.redb"));
    assert!(!is_registered_value(""));
}

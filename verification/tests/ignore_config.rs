use linkfield::ignore_config::IgnoreConfig;

#[test]
fn test_ignore_config() {
    let config = IgnoreConfig::new(&["*.tmp", "target/", "**/node_modules/"]).unwrap();
    assert!(config.is_ignored("foo.tmp"));
    assert!(config.is_ignored("target/build.log"));
    assert!(config.is_ignored("src/node_modules/bar.js"));
    assert!(!config.is_ignored("src/main.rs"));
}

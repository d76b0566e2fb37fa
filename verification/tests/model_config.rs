#![allow(unused_imports)]
use wenv::model::config::Config;

#[test]
fn test_default_config() {
    let config = Config::default();
    assert_eq!(config.ui.language, "en");
    assert!(config.files.is_empty());
}

use npmpink::config::{
    get_root_config_path, healthcheck_from_exists, Config, DuplicateSourceError, HealthCheckError,
    Mode, WorkspaceConfig,
};
use npmpink::source::{source_list_line, Source};
use std::path::{Path, PathBuf};

#[test]
fn path_try_exists() {
    assert!(!Path::new("not----existscret_file.txt").try_exists().unwrap());
}

#[test]
fn test_workspace_config() {
    let _ = WorkspaceConfig::default();
}

#[test]
fn test_config_health_check_not_exists() {
    let result = healthcheck_from_exists(false);
    assert!(matches!(result, Err(HealthCheckError::ConfigFileNotExist)));
    assert!(healthcheck_from_exists(true).is_ok());
}

#[test]
fn test_workspace_root_home_env() {
    let test_home = PathBuf::from("/home/user");
    assert!(test_home.is_absolute());
    assert!(npmpink::strutil::path_is_absolute("/home/user"));
}

#[test]
fn test_get_root_config_path() {
    let config_root_path = get_root_config_path("/home/user");
    assert_eq!(
        PathBuf::from(config_root_path),
        PathBuf::from("/home/user").join(".npmpink.json")
    );
}

#[test]
fn test_health_check_messages() {
    assert_eq!(
        HealthCheckError::ConfigFileNotExist.message(),
        "File does not exist".to_string()
    );
    assert_eq!(
        HealthCheckError::ConfigFileInvalid.message(),
        "Config file is invalid".to_string()
    );
}

#[test]
fn test_source_add_and_list() {
    // Adding a source to a fresh configuration succeeds, and the source
    // list afterwards holds a line with the derived id and the path.
    let mut config = Config::default();
    assert!(matches!(config.mode, Mode::Symlink));
    let source = Source::new("/home/user/fixtures".to_string());
    let id = source.id.clone();
    assert!(config.add_source(source).is_ok());
    let lines: Vec<String> = config.sources.iter().map(source_list_line).collect();
    assert_eq!(lines.len(), 1);
    assert!(lines[0].contains(&id));
    assert!(lines[0].contains("/home/user/fixtures"));
}

#[test]
fn test_source_add_duplicate() {
    let mut config = Config::default();
    assert!(config.add_source(Source::new("/a/b".to_string())).is_ok());
    let again = config.add_source(Source::new("/a/b".to_string()));
    assert!(matches!(again, Err(DuplicateSourceError)));
    assert_eq!(config.sources.len(), 1);
}

#[test]
fn test_source_remove() {
    let mut config = Config::default();
    config.add_source(Source::new("/a/b".to_string())).unwrap();
    config.add_source(Source::new("/c/d".to_string())).unwrap();
    let gone = Source::new("/a/b".to_string());
    assert!(config.remove_source(gone.id.as_str()));
    assert_eq!(config.sources.len(), 1);
    assert!(!config.has_source(gone.id.as_str()));
    assert!(!config.remove_source("no-such-id"));
    assert_eq!(config.sources.len(), 1);
}

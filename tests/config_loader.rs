use grafton_config::{config_file_names, map_env_var, GraftonConfig};

#[test]
fn test_map_env_var_sections() {
    assert_eq!(map_env_var("WEBSITE_PORT"), "WEBSITE.PORT");
    assert_eq!(map_env_var("SESSION_SECRET_KEY"), "SESSION.SECRET_KEY");
    assert_eq!(map_env_var("LOGGER_LEVEL"), "LOGGER.LEVEL");
    assert_eq!(map_env_var("WEBSITE_"), "WEBSITE.");
}

#[test]
fn test_map_env_var_other_names_kept() {
    assert_eq!(map_env_var("PATH"), "PATH");
    assert_eq!(map_env_var("WEBSITE"), "WEBSITE");
    assert_eq!(map_env_var("website_port"), "website_port");
    assert_eq!(map_env_var("MY_WEBSITE_PORT"), "MY_WEBSITE_PORT");
    assert_eq!(map_env_var(""), "");
}

#[test]
fn test_config_file_names_without_run_mode() {
    assert_eq!(config_file_names(&None), vec!["default.toml".to_string(), "local.toml".to_string()]);
}

#[test]
fn test_config_file_names_with_run_mode() {
    assert_eq!(
        config_file_names(&Some("prod".to_string())),
        vec!["default.toml".to_string(), "local.toml".to_string(), "prod.toml".to_string()]
    );
}

#[test]
fn test_grafton_config_default_has_no_run_mode() {
    assert_eq!(GraftonConfig::default().run_mode, None);
}

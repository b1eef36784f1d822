use vanadis::paths::{Environment, PathsError};

fn environment() -> Environment {
    Environment::new(None, None, None, Some("/home/ada".to_owned()))
}

#[test]
fn takes_the_config_directory_from_vanadis_config() {
    let environment = Environment::new(
        Some("/srv/themes".to_owned()),
        Some("/home/ada/.config".to_owned()),
        None,
        Some("/home/ada".to_owned()),
    );
    assert_eq!(environment.config_dir().unwrap(), "/srv/themes");
}

#[test]
fn takes_the_config_directory_from_xdg_config_home() {
    let environment = Environment::new(
        None,
        Some("/home/ada/.config".to_owned()),
        None,
        Some("/home/ada".to_owned()),
    );
    assert_eq!(environment.config_dir().unwrap(), "/home/ada/.config/vanadis");
}

#[test]
fn falls_back_to_dot_config_under_the_home_directory() {
    assert_eq!(environment().config_dir().unwrap(), "/home/ada/.config/vanadis");
}

#[test]
fn reports_that_it_cannot_find_the_home_directory() {
    let environment = Environment::new(None, None, None, None);
    assert!(matches!(environment.config_dir(), Err(PathsError::NoHome { .. })));
}

#[test]
fn scans_themes_under_the_config_directory() {
    assert_eq!(environment().themes_dir().unwrap(), "/home/ada/.config/vanadis/themes");
}

#[test]
fn takes_the_state_file_from_xdg_state_home() {
    let environment = Environment::new(
        None,
        None,
        Some("/home/ada/.local/state".to_owned()),
        Some("/home/ada".to_owned()),
    );
    assert_eq!(
        environment.state_file().unwrap(),
        "/home/ada/.local/state/vanadis/state.toml"
    );
}

#[test]
fn falls_back_to_dot_local_state_under_the_home_directory() {
    assert_eq!(
        environment().state_file().unwrap(),
        "/home/ada/.local/state/vanadis/state.toml"
    );
}

#[test]
fn keeps_the_state_file_out_of_the_directory_vanadis_config_names() {
    let environment = Environment::new(
        Some("/srv/themes".to_owned()),
        None,
        None,
        Some("/home/ada".to_owned()),
    );
    assert_eq!(
        environment.state_file().unwrap(),
        "/home/ada/.local/state/vanadis/state.toml"
    );
}

#[test]
fn reads_an_empty_variable_as_unset() {
    let environment = Environment::new(
        None,
        Some(String::new()),
        None,
        Some("/home/ada".to_owned()),
    );
    assert_eq!(environment.config_dir().unwrap(), "/home/ada/.config/vanadis");
}

#[test]
fn reports_the_missing_home_for_the_state_file() {
    let environment = Environment::new(Some("/srv/themes".to_owned()), None, None, None);
    assert!(matches!(environment.state_file(), Err(PathsError::NoHome { .. })));
    assert_eq!(environment.config_dir().unwrap(), "/srv/themes");
}

#[test]
fn caches_schemes_under_xdg_cache_home() {
    let dir = vanadis::paths::schemes_dir(Some("/var/cache".to_owned()), Some("/home/ada".to_owned())).unwrap();
    assert_eq!(dir, "/var/cache/vanadis/schemes");
}

#[test]
fn caches_schemes_under_dot_cache_without_xdg_cache_home() {
    let dir = vanadis::paths::schemes_dir(Some(String::new()), Some("/home/ada".to_owned())).unwrap();
    assert_eq!(dir, "/home/ada/.cache/vanadis/schemes");
}

#[test]
fn reports_a_scheme_cache_it_cannot_locate() {
    let error = vanadis::paths::schemes_dir(None, None).unwrap_err();
    assert_eq!(error.message(), "cannot locate the scheme cache: neither $XDG_CACHE_HOME nor a home directory is set");
}

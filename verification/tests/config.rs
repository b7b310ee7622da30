use emacs_i3::aliases::AliasMap;
use emacs_i3::config::{
    config_path, default_config_path, load, resolve_socket, resolve_timeout, Config, ConfigError,
    EnvValue, LoadError, TimeoutError,
};
use std::path::PathBuf;

#[test]
fn defaults_preserve_legacy_detection_and_fallback() {
    let config = Config::default();
    assert_eq!(config.emacs_classes, ["Emacs"]);
    assert_eq!(config.emacs_name_prefixes, ["emacs: "]);
    assert!(config.tabbed_horizontal_focus);
    assert_eq!(config.timeout_ms, 250);
}

#[test]
fn aliases_expand_transitively_and_cycles_fail_closed() {
    let mut config = Config::default();
    config
        .aliases
        .insert("focus west".to_owned(), "focus left".to_owned());
    config
        .aliases
        .insert("go west".to_owned(), "focus west".to_owned());
    assert_eq!(config.expand_alias("go west").unwrap(), "focus left");

    config.aliases.insert("a".to_owned(), "b".to_owned());
    config.aliases.insert("b".to_owned(), "a".to_owned());
    assert!(config.expand_alias("a").is_err());
}

#[test]
fn alias_cycle_names_the_first_repeated_command() {
    let mut config = Config::default();
    config.aliases.insert("x".to_owned(), "a".to_owned());
    config.aliases.insert("a".to_owned(), "b".to_owned());
    config.aliases.insert("b".to_owned(), "a".to_owned());
    assert_eq!(
        config.expand_alias("x"),
        Err(ConfigError::AliasCycle("a".to_owned()))
    );
    config.aliases.insert("s".to_owned(), "s".to_owned());
    assert_eq!(
        config.expand_alias("s"),
        Err(ConfigError::AliasCycle("s".to_owned()))
    );
}

#[test]
fn plain_commands_and_expansions_are_final() {
    let mut config = Config::default();
    config.aliases.insert("go west".to_owned(), "focus left".to_owned());
    assert_eq!(config.expand_alias("kill").unwrap(), "kill");
    let once = config.expand_alias("go west").unwrap();
    assert_eq!(config.expand_alias(&once).unwrap(), once);
}

#[test]
fn alias_table_reads_back_writes() {
    let mut aliases = AliasMap::new();
    assert_eq!(aliases.insert("a".to_owned(), "b".to_owned()), None);
    assert_eq!(aliases.insert("a".to_owned(), "c".to_owned()), Some("b".to_owned()));
    assert_eq!(aliases.get("a"), Some(&"c".to_owned()));
    assert_eq!(aliases.get("b"), None);
    assert_eq!(aliases.len(), 1);
    assert_eq!(aliases.to_pairs(), vec![("a".to_owned(), "c".to_owned())]);
    let copy = aliases.clone();
    assert_eq!(copy, aliases);
}

#[test]
fn validation_reports_each_problem() {
    let mut config = Config::default();
    assert_eq!(config.validate(), Ok(()));
    config.emacs_name_prefixes.push(String::new());
    assert_eq!(config.validate(), Err(ConfigError::EmptyNamePrefix));
    config.emacs_classes.push(String::new());
    assert_eq!(config.validate(), Err(ConfigError::EmptyEmacsClass));
    config.timeout_ms = 0;
    assert_eq!(config.validate(), Err(ConfigError::ZeroTimeout));
}

#[test]
fn timeout_precedence_and_errors() {
    let config = Config::default();
    let present = |s: &str| EnvValue::Present(s.to_owned());
    assert_eq!(resolve_timeout(Some(100), &present("200"), &config), Ok(100));
    assert_eq!(resolve_timeout(None, &present("200"), &config), Ok(200));
    assert_eq!(resolve_timeout(None, &present("+7"), &config), Ok(7));
    assert_eq!(resolve_timeout(None, &EnvValue::Missing, &config), Ok(250));
    assert_eq!(
        resolve_timeout(None, &present("abc"), &config),
        Err(TimeoutError::InvalidEnv)
    );
    assert_eq!(
        resolve_timeout(None, &present(" 5"), &config),
        Err(TimeoutError::InvalidEnv)
    );
    assert_eq!(
        resolve_timeout(None, &present("18446744073709551616"), &config),
        Err(TimeoutError::InvalidEnv)
    );
    assert_eq!(
        resolve_timeout(None, &present("18446744073709551615"), &config),
        Ok(u64::MAX)
    );
    assert_eq!(
        resolve_timeout(None, &present("0"), &config),
        Err(TimeoutError::Zero)
    );
    assert_eq!(
        resolve_timeout(Some(0), &present("5"), &config),
        Err(TimeoutError::Zero)
    );
    assert_eq!(
        resolve_timeout(None, &EnvValue::NotUnicode, &config),
        Err(TimeoutError::UnreadableEnv)
    );
}

#[test]
fn socket_precedence() {
    let mut config = Config::default();
    config.socket = Some(PathBuf::from("/c.sock"));
    let cli = Some(PathBuf::from("/cli.sock"));
    let env = Some(PathBuf::from("/env.sock"));
    let run = Some(PathBuf::from("/run/user/1"));
    assert_eq!(resolve_socket(cli.clone(), env.clone(), &config, run.clone()), cli);
    assert_eq!(resolve_socket(None, env.clone(), &config, run.clone()), env);
    assert_eq!(
        resolve_socket(None, None, &config, run.clone()),
        Some(PathBuf::from("/c.sock"))
    );
    config.socket = None;
    assert_eq!(
        resolve_socket(None, None, &config, run),
        Some(PathBuf::from("/run/user/1/emacs/server"))
    );
    assert_eq!(resolve_socket(None, None, &config, None), None);
}

#[test]
fn config_locations() {
    assert_eq!(
        default_config_path(Some(PathBuf::from("/x")), Some(PathBuf::from("/home/u"))),
        Some(PathBuf::from("/x/emacs-i3/config.toml"))
    );
    assert_eq!(
        default_config_path(None, Some(PathBuf::from("/home/u"))),
        Some(PathBuf::from("/home/u/.config/emacs-i3/config.toml"))
    );
    assert_eq!(default_config_path(None, None), None);
    let (path, explicit) = config_path(None, Some(PathBuf::from("/e.toml")), Some(PathBuf::from("/d.toml")));
    assert_eq!(path, Some(PathBuf::from("/e.toml")));
    assert!(explicit);
    let (path, explicit) = config_path(None, None, Some(PathBuf::from("/d.toml")));
    assert_eq!(path, Some(PathBuf::from("/d.toml")));
    assert!(!explicit);
}

#[test]
fn loading_settles_file_missing_or_defaults() {
    let missing = load(Some(PathBuf::from("/m.toml")), true, None);
    assert_eq!(missing.unwrap_err(), LoadError::MissingFile);
    let defaults = load(Some(PathBuf::from("/d.toml")), false, None).unwrap();
    assert!(!defaults.loaded);
    assert_eq!(defaults.config, Config::default());
    let mut file = Config::default();
    file.timeout_ms = 91;
    let loaded = load(Some(PathBuf::from("/f.toml")), true, Some(file.clone())).unwrap();
    assert!(loaded.loaded);
    assert_eq!(loaded.config, file);
    assert_eq!(loaded.path, Some(PathBuf::from("/f.toml")));
    file.timeout_ms = 0;
    assert_eq!(
        load(None, false, Some(file)).unwrap_err(),
        LoadError::Invalid(ConfigError::ZeroTimeout)
    );
}

#[test]
fn alias_tables_compare_by_content() {
    let mut a = AliasMap::new();
    a.insert("x".to_owned(), "1".to_owned());
    a.insert("y".to_owned(), "2".to_owned());
    let mut b = AliasMap::new();
    b.insert("y".to_owned(), "2".to_owned());
    b.insert("x".to_owned(), "1".to_owned());
    assert_eq!(a, b);
    b.insert("x".to_owned(), "3".to_owned());
    assert_ne!(a, b);
    b.insert("x".to_owned(), "1".to_owned());
    b.insert("z".to_owned(), "1".to_owned());
    assert_ne!(a, b);
}

#[test]
fn error_messages() {
    assert_eq!(
        ConfigError::AliasCycle("a b".to_owned()).message(),
        "command alias cycle detected at \"a b\""
    );
    assert_eq!(
        ConfigError::ZeroTimeout.message(),
        "timeout_ms must be greater than zero"
    );
    assert_eq!(LoadError::MissingFile.message(), "config file does not exist");
    assert_eq!(
        LoadError::Invalid(ConfigError::EmptyEmacsClass).message(),
        "emacs_classes cannot contain an empty value"
    );
    assert_eq!(
        TimeoutError::InvalidEnv.message(),
        "EMACS_I3_TIMEOUT_MS must be a positive integer"
    );
    assert_eq!(
        TimeoutError::Zero.message(),
        "timeout must be greater than zero milliseconds"
    );
}

#[test]
fn timeout_text_edge_cases() {
    let config = Config::default();
    for bad in ["", "+", "-1", "1_0", "١", "12a"] {
        assert_eq!(
            resolve_timeout(None, &EnvValue::Present(bad.to_owned()), &config),
            Err(TimeoutError::InvalidEnv),
            "{:?}",
            bad
        );
    }
    assert_eq!(
        resolve_timeout(None, &EnvValue::Present("007".to_owned()), &config),
        Ok(7)
    );
}

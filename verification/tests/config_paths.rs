use island::config::{
    check_profile_default, generate_path_beneath_rule, ConfigError, ContextOutcome, DefaultUpdate, IslandConfig,
};
use island::lock::LockMode;

#[test]
fn config_dir_prefers_xdg_config_home() {
    assert_eq!(IslandConfig::config_dir(Some("/x"), Some("/home/u")).unwrap(), "/x/island");
    assert_eq!(IslandConfig::config_dir(None, Some("/home/u")).unwrap(), "/home/u/.config/island");
    assert!(matches!(IslandConfig::config_dir(None, None), Err(ConfigError::UnknownHomeConfig)));
}

#[test]
fn profile_directories() {
    let config = IslandConfig::with_profiles_dir("/cfg/island/profiles".to_string());
    assert_eq!(config.profiles_dir(), "/cfg/island/profiles");
    assert_eq!(config.profile_dir("p"), "/cfg/island/profiles/p");
    assert_eq!(config.landlock_dir("p"), "/cfg/island/profiles/p/landlock");
    assert_eq!(config.default_base_path("p"), "/cfg/island/profiles/p/landlock/island-default-base.toml");
}

#[test]
fn default_base_update_needs_the_exclusive_lock_only_to_write() {
    assert!(!check_profile_default(false, "", "new"));
    assert!(!check_profile_default(true, "new", "new"));
    assert!(check_profile_default(true, "old", "new"));
    let config = IslandConfig::with_profiles_dir("/cfg/profiles".to_string());
    assert_eq!(config.update_profile_default("p", LockMode::Shared, false), DefaultUpdate::UpToDate);
    assert_eq!(config.update_profile_default("p", LockMode::Shared, true), DefaultUpdate::NeedsExclusive);
    assert_eq!(
        config.update_profile_default("p", LockMode::Exclusive, true),
        DefaultUpdate::Write { path: "/cfg/profiles/p/landlock/island-default-base.toml".to_string() }
    );
}

#[test]
fn path_beneath_rule_text() {
    let rule = generate_path_beneath_rule(
        &["abi.read_execute".to_string(), "write_file".to_string()],
        &["/usr".to_string(), "/home/user/with \"quote\"".to_string()],
    );
    assert_eq!(
        rule,
        "[[path_beneath]]\nallowed_access = [\"abi.read_execute\", \"write_file\"]\nparent = [\n    \"/usr\",\n    '/home/user/with \"quote\"',\n]\n"
    );
    let doc: toml::Table = rule.parse().unwrap();
    assert!(doc.get("path_beneath").is_some());
}

#[test]
fn profile_warnings_for_unusable_and_overlapping_contexts() {
    let outcomes = vec![
        ContextOutcome { when_beneath: "/work".to_string(), canonical: Ok("/work".to_string()) },
        ContextOutcome { when_beneath: "/gone".to_string(), canonical: Err("No such file or directory".to_string()) },
        ContextOutcome { when_beneath: "/work/sub".to_string(), canonical: Ok("/work/sub".to_string()) },
    ];
    let (profile, warnings) = IslandConfig::parse_profile_config("p", &outcomes, &Vec::new(), Some(false));
    assert!(!profile.workspace);
    assert_eq!(profile.contexts.len(), 1);
    assert_eq!(
        warnings,
        vec![
            "Warning: ignoring context for profile \"p\" because of error regarding directory \"/gone\": No such file or directory"
                .to_string(),
            "Warning: profile \"p\" has overlapping contexts: ignoring ContextEntry { when_beneath: Some(\"/work/sub\") }"
                .to_string(),
        ]
    );
}

#[test]
fn profile_names_are_sorted_and_unique() {
    let mut config = IslandConfig::with_profiles_dir("/d".to_string());
    for name in ["b", "a", "c", "a"] {
        let (p, _) = IslandConfig::parse_profile_config(name, &Vec::new(), &Vec::new(), None);
        config.insert_profile(name.to_string(), p);
    }
    assert_eq!(config.profile_names(), vec!["a", "b", "c"]);
    assert_eq!(config.len(), 3);
    assert!(config.profile("d").is_none());
}

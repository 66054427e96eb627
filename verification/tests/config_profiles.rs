use island::config::{is_profile_name_valid, ConfigError, ContextOutcome, Env, IslandConfig, Profile};
use island::context::ContextEntry;
use island::resolved::ResolvedProfile;
use std::cell::RefCell;

/// Reads a `profile.toml` text into the parts the library builds a profile
/// from, each `when_beneath` directory taken as already canonical.
fn profile_parts(content: &str) -> (Vec<ContextOutcome>, Vec<Env>, Option<bool>) {
    let table: toml::Table = content.parse().unwrap();
    let mut contexts = Vec::new();
    if let Some(toml::Value::Array(items)) = table.get("context") {
        for item in items {
            let p = item.get("when_beneath").and_then(|v| v.as_str()).unwrap().to_string();
            contexts.push(ContextOutcome { when_beneath: p.clone(), canonical: Ok(p) });
        }
    }
    let mut env = Vec::new();
    if let Some(toml::Value::Array(items)) = table.get("env") {
        for item in items {
            env.push(Env {
                name: item.get("name").and_then(|v| v.as_str()).unwrap().to_string(),
                literal: item.get("literal").and_then(|v| v.as_str()).unwrap().to_string(),
            });
        }
    }
    let workspace = table.get("workspace").and_then(|v| v.as_bool());
    (contexts, env, workspace)
}

fn create_test_config_with_profiles(profiles_data: &[(&str, &str)]) -> IslandConfig {
    let mut config = IslandConfig::with_profiles_dir("/test/config/profiles/dir".to_string());
    for (profile_name, toml_content) in profiles_data {
        let (contexts, env, workspace) = profile_parts(toml_content);
        let (profile, _warnings) = IslandConfig::parse_profile_config(profile_name, &contexts, &env, workspace);
        assert!(config.profile(profile_name).is_none(), "Duplicate profile name in test data: {}", profile_name);
        config.insert_profile(profile_name.to_string(), profile);
    }
    config
}

fn create_test_config() -> IslandConfig {
    create_test_config_with_profiles(&[
        ("home", "\n[[context]]\nwhen_beneath = \"/home/user\"\n"),
        ("projects", "\n[[context]]\nwhen_beneath = \"/home/user/projects\"\n"),
        ("work1", "\n[[context]]\nwhen_beneath = \"/home/user/projects/work1\"\n"),
        ("standalone", ""),
    ])
}

fn mock_load(_: &str) -> Result<(), ConfigError> {
    Ok(())
}

fn entry(p: Option<&str>) -> ContextEntry {
    ContextEntry { when_beneath: p.map(|s| s.to_string()) }
}

#[test]
fn test_empty_profile() {
    create_test_config_with_profiles(&[("empty", "")]);
}

#[test]
fn test_resolve_profiles_map_error() {
    let config = create_test_config();
    let matches = RefCell::new(0);

    let result = config.resolve_profiles_by_path("/home/user/projects/work1/foo", |_: &str| -> Result<(), ConfigError> {
        *matches.borrow_mut() += 1;
        Err(ConfigError::ProfileNotFound { name: "test".to_string() })
    });

    // The closure should be called for the first matching profile (home).
    assert_eq!(1, *matches.borrow());
    assert!(matches!(result, Err(ConfigError::ProfileNotFound { name }) if name == "test"));
}

#[test]
fn test_resolve_profiles_matches() {
    let config = create_test_config();

    let result = config.resolve_profiles_by_path("/home/user/projects", mock_load).unwrap();

    let mut resolved_iter = result.iter();
    assert!(matches!(resolved_iter.next().unwrap(), ResolvedProfile { name: "home", .. }));
    assert!(matches!(resolved_iter.next().unwrap(), ResolvedProfile { name: "projects", .. }));
    assert!(resolved_iter.next().is_none());
}

#[test]
fn test_resolve_profiles_single_match() {
    let config = create_test_config();

    // Test path that only matches one profile but returns an error.
    let result = config.resolve_profiles_by_path("/home/user/downloads", |_: &str| -> Result<(), ConfigError> {
        Err(ConfigError::ProfileNotFound { name: "test".to_string() })
    });

    assert!(matches!(result, Err(ConfigError::ProfileNotFound { name }) if name == "test"));
}

#[test]
fn test_resolve_profiles_no_match() {
    let config = create_test_config();

    // Test path that matches no profiles.
    let result = config.resolve_profiles_by_path("/home/bob/projects", |_: &str| -> Result<(), ConfigError> {
        panic!("Closure should not be called when no profiles match")
    });

    assert!(matches!(result, Err(ConfigError::NoContextForDirectory { cwd }) if cwd == "/home/bob/projects"));
}

#[test]
fn test_resolve_profiles_by_names_with_optional_when_beneath() {
    let config = create_test_config();

    // Test resolving profiles without when_beneath using resolve_profiles_by_names.
    let result = config.resolve_profiles_by_names(&["standalone"], mock_load);

    assert!(matches!(
        result.as_deref(),
        Ok([ResolvedProfile { name, context: None, .. }]) if *name == "standalone"
    ));

    // Test resolving mixed profiles (with and without context,
    // but none returned since resolved by name).
    let result = config.resolve_profiles_by_names(&["home", "standalone"], mock_load);

    assert!(matches!(
        result.as_deref(),
        Ok([
            ResolvedProfile { name, context: None, .. },
            ResolvedProfile { name: name2, context: None, .. }
        ]) if *name == "home" && *name2 == "standalone"
    ));
}

#[test]
fn test_parse_config_dup_and_sorted() {
    // Test data with duplicates and unsorted entries.
    let config = create_test_config_with_profiles(&[
        (
            "b",
            "\n[[context]]\nwhen_beneath = \"/foo\"\n\n[[context]]\nwhen_beneath = \"/foo\"\n\n[[context]]\nwhen_beneath = \"/bar\"\n",
        ),
        ("a", "\n[[context]]\nwhen_beneath = \"/foo\"\n\n[[context]]\nwhen_beneath = \"/foo\"\n"),
    ]);

    let names = config.profile_names();
    let mut profile_iter = names.iter();

    let name = profile_iter.next().unwrap();
    assert_eq!(name, "a");
    let profile = config.profile(name).unwrap();

    // Sorted by profile's name and when_beneath.
    let mut entry_iter = profile.contexts.iter();
    assert_eq!(entry_iter.next(), Some(&entry(Some("/foo"))));
    assert_eq!(entry_iter.next(), None);

    let name = profile_iter.next().unwrap();
    assert_eq!(name, "b");
    let profile = config.profile(name).unwrap();

    // Sorted by profile's name and when_beneath.
    let mut entry_iter = profile.contexts.iter();
    assert_eq!(entry_iter.next(), Some(&entry(Some("/bar"))));
    assert_eq!(entry_iter.next(), Some(&entry(Some("/foo"))));
    assert_eq!(entry_iter.next(), None);
    assert_eq!(profile_iter.next(), None);

    // Check duplicate when_beneath with similar profile's name.
    let mut profile_iter = config.resolve_profiles_by_path("/foo", mock_load).unwrap().into_iter();
    assert!(matches!(
        profile_iter.next().unwrap(),
        ResolvedProfile { name: "a", context: Some(&ContextEntry { when_beneath: Some(ref path) }), .. } if path == "/foo"
    ));
    assert!(matches!(
        profile_iter.next().unwrap(),
        ResolvedProfile { name: "b", context: Some(&ContextEntry { when_beneath: Some(ref path) }), .. } if path == "/foo"
    ));
    assert!(profile_iter.next().is_none());

    // Check duplicate profile's name with different when_beneath.
    let mut profile_iter = config.resolve_profiles_by_names(&["b"], mock_load).unwrap().into_iter();
    assert!(matches!(profile_iter.next().unwrap(), ResolvedProfile { name: "b", context: None, .. }));
    assert!(profile_iter.next().is_none());
}

fn create_resolved_profile<'a>(
    name: &'a str,
    context: Option<&'a ContextEntry>,
    profile: &'a Profile,
    env_vars: &'a Vec<Env>,
) -> ResolvedProfile<'a, ()> {
    ResolvedProfile { name, profile, context, config: (), env_vars, workspace: true }
}

#[test]
#[allow(clippy::nonminimal_bool)]
fn test_resolved_profile_ordering() {
    let source_profile = Profile::default();
    let env: Vec<Env> = Vec::new();

    // Empty contexts.
    let none = entry(None);
    let ctx_beneath_none = Some(&none);
    let profile1 = create_resolved_profile("a", ctx_beneath_none, &source_profile, &env);
    let profile2 = create_resolved_profile("a", ctx_beneath_none, &source_profile, &env);
    assert!(!(profile1 < profile2));
    assert!(profile1 == profile2);
    assert!(!(profile1 > profile2));

    // Fall back to lexicographic order.
    let profile1 = create_resolved_profile("a", ctx_beneath_none, &source_profile, &env);
    let profile2 = create_resolved_profile("b", ctx_beneath_none, &source_profile, &env);
    assert!(profile1 < profile2);
    assert!(!(profile1 == profile2));
    assert!(!(profile1 > profile2));

    // Empty vs. non-empty context.
    let foo = entry(Some("/foo"));
    let ctx_beneath_foo = Some(&foo);
    let profile1 = create_resolved_profile("a", ctx_beneath_foo, &source_profile, &env);
    let profile2 = create_resolved_profile("a", ctx_beneath_none, &source_profile, &env);
    assert!(!(profile1 < profile2));
    assert!(!(profile1 == profile2));
    assert!(profile1 > profile2);

    // Do not fall back to lexicographic order.
    let profile1 = create_resolved_profile("a", ctx_beneath_foo, &source_profile, &env);
    let profile2 = create_resolved_profile("b", ctx_beneath_none, &source_profile, &env);
    assert!(!(profile1 < profile2));
    assert!(!(profile1 == profile2));
    assert!(profile1 > profile2);

    // Context with sibling paths.
    let bar = entry(Some("/bar"));
    let ctx_beneath_bar = Some(&bar);
    let profile1 = create_resolved_profile("a", ctx_beneath_foo, &source_profile, &env);
    let profile2 = create_resolved_profile("a", ctx_beneath_bar, &source_profile, &env);
    assert!(!(profile1 < profile2));
    assert!(!(profile1 == profile2));
    assert!(profile1 > profile2);

    // Do not fall back to lexicographic order.
    let profile1 = create_resolved_profile("a", ctx_beneath_foo, &source_profile, &env);
    let profile2 = create_resolved_profile("b", ctx_beneath_bar, &source_profile, &env);
    assert!(!(profile1 < profile2));
    assert!(!(profile1 == profile2));
    assert!(profile1 > profile2);

    // Context with nested path.
    let foo_bar = entry(Some("/foo/bar"));
    let ctx_beneath_foo_bar = Some(&foo_bar);
    let profile1 = create_resolved_profile("a", ctx_beneath_foo, &source_profile, &env);
    let profile2 = create_resolved_profile("a", ctx_beneath_foo_bar, &source_profile, &env);
    assert!(profile1 < profile2);
    assert!(!(profile1 == profile2));
    assert!(!(profile1 > profile2));

    // Do not fall back to lexicographic order.
    let profile1 = create_resolved_profile("b", ctx_beneath_foo, &source_profile, &env);
    let profile2 = create_resolved_profile("a", ctx_beneath_foo_bar, &source_profile, &env);
    assert!(profile1 < profile2);
    assert!(!(profile1 == profile2));
    assert!(!(profile1 > profile2));

    // Context with same path.
    let profile1 = create_resolved_profile("a", ctx_beneath_foo, &source_profile, &env);
    let profile2 = create_resolved_profile("a", ctx_beneath_foo, &source_profile, &env);
    assert!(!(profile1 < profile2));
    assert!(profile1 == profile2);
    assert!(!(profile1 > profile2));

    // Fall back to lexicographic order.
    let profile1 = create_resolved_profile("a", ctx_beneath_foo, &source_profile, &env);
    let profile2 = create_resolved_profile("b", ctx_beneath_foo, &source_profile, &env);
    assert!(profile1 < profile2);
    assert!(!(profile1 == profile2));
    assert!(!(profile1 > profile2));
}

#[test]
fn test_resolved_profile_sorted() {
    let source_profile = Profile::default();
    let env: Vec<Env> = Vec::new();

    let none = entry(None);
    let foo = entry(Some("/foo"));
    let bar = entry(Some("/bar"));
    let foo_bar = entry(Some("/foo/bar"));

    let sorted = [
        create_resolved_profile("a", Some(&none), &source_profile, &env),
        create_resolved_profile("b", Some(&none), &source_profile, &env),
        create_resolved_profile("a", Some(&bar), &source_profile, &env),
        create_resolved_profile("b", Some(&bar), &source_profile, &env),
        create_resolved_profile("a", Some(&foo), &source_profile, &env),
        create_resolved_profile("b", Some(&foo), &source_profile, &env),
        create_resolved_profile("a", Some(&foo_bar), &source_profile, &env),
        create_resolved_profile("b", Some(&foo_bar), &source_profile, &env),
    ];
    // An ordered set of unsorted and duplicated profiles, kept by their order.
    let mut set: Vec<&ResolvedProfile<()>> = Vec::new();
    for p in sorted.iter().rev().chain(sorted.iter()) {
        match set.binary_search_by(|q| q.partial_cmp(&p).unwrap()) {
            Ok(_) => {}
            Err(i) => set.insert(i, p),
        }
    }

    // Check growing order.
    assert_eq!(sorted.len(), set.len());
    for (i, profile) in set.into_iter().enumerate() {
        assert!(*profile == sorted[i]);
    }
}

fn create_test_config_for_ordering() -> IslandConfig {
    create_test_config_with_profiles(&[
        ("d", "\n[[context]]\nwhen_beneath = \"/foo\"\n"),
        ("c", "\n[[context]]\nwhen_beneath = \"/foo\"\n"),
        ("b", "\n[[context]]\nwhen_beneath = \"/\"\n"),
        ("a", "\n[[context]]\nwhen_beneath = \"/foo/bar\"\n"),
    ])
}

#[test]
fn test_resolve_profile_by_path_sorted() {
    let config = create_test_config_for_ordering();

    let resolved_profiles = config.resolve_profiles_by_path("/foo/bar", mock_load).unwrap();
    let mut profile_iter = resolved_profiles.iter();

    assert!(matches!(
        profile_iter.next().unwrap(),
        ResolvedProfile { name: "b", context: Some(&ContextEntry { when_beneath: Some(ref path) }), .. } if path == "/"
    ));
    assert!(matches!(
        profile_iter.next().unwrap(),
        ResolvedProfile { name: "c", context: Some(&ContextEntry { when_beneath: Some(ref path) }), .. } if path == "/foo"
    ));
    assert!(matches!(
        profile_iter.next().unwrap(),
        ResolvedProfile { name: "d", context: Some(&ContextEntry { when_beneath: Some(ref path) }), .. } if path == "/foo"
    ));
    assert!(matches!(
        profile_iter.next().unwrap(),
        ResolvedProfile { name: "a", context: Some(&ContextEntry { when_beneath: Some(ref path) }), .. } if path == "/foo/bar"
    ));
    assert!(profile_iter.next().is_none());
}

#[test]
fn test_resolve_profile_by_name_unsorted() {
    let config = create_test_config_for_ordering();
    let name_order = ["d", "c", "a", "b"];
    let resolved_profiles = config.resolve_profiles_by_names(&name_order, mock_load).unwrap();

    let mut profile_iter = resolved_profiles.iter();
    for n in &name_order {
        assert!(matches!(profile_iter.next().unwrap(), ResolvedProfile { name, context: None, .. } if name == n));
    }
    assert!(profile_iter.next().is_none());
}

#[test]
fn test_parse_config_env() {
    let config = create_test_config_with_profiles(&[
        (
            "with context",
            "\n[[context]]\nwhen_beneath = \"/foo\"\n\n[[env]]\nname = \"FOO\"\nliteral = \"/tmp/foo\"\n\n[[env]]\nname = \"BAR\"\nliteral = \"/tmp/bar\"\n",
        ),
        ("without context", "\n[[env]]\nname = \"BAR\"\nliteral = \"/tmp/bar2\"\n"),
    ]);
    let resolved_profiles = config.resolve_profiles_by_path("/foo/bar", mock_load).unwrap();
    let mut profile_iter = resolved_profiles.iter();

    let profile = profile_iter.next().unwrap();
    assert!(matches!(
        profile,
        ResolvedProfile { name: "with context", context: Some(&ContextEntry { when_beneath: Some(ref path) }), .. } if path == "/foo"
    ));
    // The environment entries form an ordered set.
    assert_eq!(
        profile.env_vars,
        &vec![
            Env { name: "BAR".to_string(), literal: "/tmp/bar".to_string() },
            Env { name: "FOO".to_string(), literal: "/tmp/foo".to_string() },
        ]
    );
    assert!(profile_iter.next().is_none());
}

#[test]
fn test_parse_config_workspace() {
    let config = create_test_config_with_profiles(&[
        ("foo", "\nworkspace = true\n"),
        ("bar", "\nworkspace = false\n"),
        ("baz", ""),
    ]);
    let resolved_profiles = config.resolve_profiles_by_names(&["foo", "bar", "baz"], mock_load).unwrap();
    let mut profile_iter = resolved_profiles.iter();

    assert!(matches!(profile_iter.next().unwrap(), ResolvedProfile { name: "foo", workspace: true, .. }));
    assert!(matches!(profile_iter.next().unwrap(), ResolvedProfile { name: "bar", workspace: false, .. }));
    // Default value.
    assert!(matches!(profile_iter.next().unwrap(), ResolvedProfile { name: "baz", workspace: true, .. }));
    assert!(profile_iter.next().is_none());
}

#[test]
fn test_is_profile_name_valid() {
    assert!(is_profile_name_valid("foo"));
    assert!(is_profile_name_valid("foo-bar"));
    assert!(is_profile_name_valid("foo_bar"));
    assert!(is_profile_name_valid("foo.bar"));
    assert!(is_profile_name_valid("foo bar"));
    assert!(is_profile_name_valid("foo@bar"));
    assert!(is_profile_name_valid("foo+bar"));

    assert!(!is_profile_name_valid("."));
    assert!(!is_profile_name_valid(".."));
    assert!(!is_profile_name_valid(".hidden"));
    assert!(!is_profile_name_valid("-flag"));
    assert!(!is_profile_name_valid("foo/bar"));
    assert!(!is_profile_name_valid("/foo"));
    assert!(!is_profile_name_valid("foo/"));
    assert!(!is_profile_name_valid("~foo"));
    assert!(!is_profile_name_valid(""));
    assert!(!is_profile_name_valid(" "));
    assert!(!is_profile_name_valid(" foo"));
    assert!(!is_profile_name_valid("\tfoo"));
    assert!(!is_profile_name_valid("foo "));
    assert!(!is_profile_name_valid("foo\t"));
    assert!(!is_profile_name_valid("\n"));
    assert!(!is_profile_name_valid("foo$bar"));
    assert!(!is_profile_name_valid("foo*bar"));
    assert!(!is_profile_name_valid("foo|bar"));
    assert!(!is_profile_name_valid("foo&bar"));
    assert!(!is_profile_name_valid("foo;bar"));
    assert!(!is_profile_name_valid("foo<bar"));
    assert!(!is_profile_name_valid("foo>bar"));
    assert!(!is_profile_name_valid("foo`bar"));
}

#[test]
fn test_profile_mini() {
    // The mini configuration: one profile, `foo`, active beneath `/tmp`.
    let config = create_test_config_with_profiles(&[("foo", "\n[[context]]\nwhen_beneath = \"/tmp\"\n")]);

    let resolved_profiles = config.resolve_profiles_by_names(&["foo", "foo"], mock_load).unwrap();
    let mut profiles_iter = resolved_profiles.iter();
    assert!(matches!(profiles_iter.next(), Some(profile)
            if profile.name == "foo" && profile.context.is_none()));
    assert!(matches!(profiles_iter.next(), Some(profile)
            if profile.name == "foo" && profile.context.is_none()));
    assert!(profiles_iter.next().is_none());

    let resolved_profiles = config.resolve_profiles_by_names(&["bar"], mock_load);
    assert!(matches!(
        resolved_profiles,
        Err(ConfigError::ProfileNotFound { name }) if name == "bar"
    ));

    let resolved_profiles = config.resolve_profiles_by_path("/tmp/foo/bar", mock_load).unwrap();
    let mut profiles_iter = resolved_profiles.iter();
    assert!(matches!(profiles_iter.next(), Some(profile)
        if profile.name == "foo" && profile.context == Some(&entry(Some("/tmp")))));
    assert!(profiles_iter.next().is_none());

    assert!(matches!(
        config.resolve_profiles_by_path("/", mock_load),
        Err(ConfigError::NoContextForDirectory { cwd }) if cwd == "/"
    ));
}

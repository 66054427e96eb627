use island::config::{IslandConfig, ContextOutcome, Profile};
use island::lock::{modify_permission, LockMode, ModifyPermission};
use island::workspace::{
    ownership_error, plan_workspace, read_temp_dir, symlink_target, symlink_workspaces, tmp_dir_prefix, xdg_workspace_dir,
    AbsoluteWorkspace, LinkState, SetupStep, SymlinkWorkspace, WorkspaceAction, WorkspaceManager, WorkspaceSetup, Xdg,
};

fn profile_with_contexts(dirs: &[&str]) -> Profile {
    let outcomes: Vec<ContextOutcome> = dirs
        .iter()
        .map(|d| ContextOutcome { when_beneath: d.to_string(), canonical: Ok(d.to_string()) })
        .collect();
    IslandConfig::parse_profile_config("p", &outcomes, &Vec::new(), None).0
}

#[test]
fn workspace_types_and_names() {
    let kinds = symlink_workspaces();
    let vars: Vec<&str> = kinds.iter().map(|k| k.env_var()).collect();
    assert_eq!(vars, ["XDG_CONFIG_HOME", "XDG_DATA_HOME", "XDG_STATE_HOME", "XDG_CACHE_HOME", "XDG_RUNTIME_DIR", "TMPDIR"]);
    let links: Vec<&str> = kinds.iter().map(|k| k.symlink_name()).collect();
    assert_eq!(
        links,
        ["workspace-config", "workspace-data", "workspace-state", "workspace-cache", "workspace-run", "workspace-tmp"]
    );
    assert_eq!(Xdg::DataHome.fallback_path(), Some(".local/share"));
    assert_eq!(Xdg::RuntimeDir.fallback_path(), None);
    assert_eq!(Xdg::CacheHome.subdir(), "island-cache-profiles");
}

#[test]
fn temp_dir_and_prefix() {
    assert_eq!(read_temp_dir(Some("/var/tmp")), "/var/tmp");
    assert_eq!(read_temp_dir(None), "/tmp");
    assert_eq!(tmp_dir_prefix(1000, "project-a"), "island-tmp-1000-project-a-");
}

#[test]
fn xdg_directories_with_fallbacks() {
    assert_eq!(
        xdg_workspace_dir(Xdg::ConfigHome, "p", Some("/cfg"), Some("/home/u")),
        Ok("/cfg/island-config-profiles/p".to_string())
    );
    assert_eq!(
        xdg_workspace_dir(Xdg::StateHome, "p", None, Some("/home/u")),
        Ok("/home/u/.local/state/island-state-profiles/p".to_string())
    );
    assert_eq!(
        xdg_workspace_dir(Xdg::DataHome, "p", None, None),
        Err("Neither XDG_DATA_HOME nor HOME environment variables are set".to_string())
    );
    assert_eq!(
        xdg_workspace_dir(Xdg::RuntimeDir, "p", None, Some("/home/u")),
        Err("XDG_RUNTIME_DIR environment variable is not set".to_string())
    );
}

#[test]
fn symlink_targets_and_ownership() {
    assert_eq!(symlink_target("/p/workspace-tmp", "/tmp/x"), Some("/tmp/x".to_string()));
    assert_eq!(symlink_target("/p/workspace-tmp", "x"), Some("/p/x".to_string()));
    assert_eq!(symlink_target("/", "x"), None);
    assert_eq!(ownership_error("/p/l", 1000, 1000, "/t"), None);
    assert_eq!(
        ownership_error("/p/l", 1000, 0, "/t"),
        Some("Security: Symlink /p/l (UID 1000) points to target owned by different UID 0: /t".to_string())
    );
}

#[test]
fn shared_lock_never_modifies() {
    assert_eq!(modify_permission(LockMode::Shared), ModifyPermission::NeedsUpdate);
    assert_eq!(modify_permission(LockMode::Exclusive), ModifyPermission::Proceed);
    let resolved = LinkState::Resolved("/d".to_string());
    assert_eq!(plan_workspace(LockMode::Shared, &resolved, "/l"), WorkspaceAction::Use("/d".to_string()));
    assert_eq!(plan_workspace(LockMode::Shared, &LinkState::Missing, "/l"), WorkspaceAction::NeedsUpdate);
    assert_eq!(plan_workspace(LockMode::Shared, &LinkState::Dangling, "/l"), WorkspaceAction::NeedsUpdate);
    assert_eq!(plan_workspace(LockMode::Exclusive, &LinkState::Missing, "/l"), WorkspaceAction::Create);
    assert_eq!(
        plan_workspace(LockMode::Exclusive, &LinkState::Dangling, "/l"),
        WorkspaceAction::RemoveAndCreate { warning: None }
    );
    assert_eq!(
        plan_workspace(LockMode::Exclusive, &LinkState::Unresolvable("bad".to_string()), "/l"),
        WorkspaceAction::RemoveAndCreate { warning: Some("Warning: failed to resolve directory /l: bad".to_string()) }
    );
}

#[test]
fn context_directories_are_numbered_in_order() {
    let profile = profile_with_contexts(&["/work/b", "/work/a"]);
    let ws = AbsoluteWorkspace::new(&profile);
    let vars: Vec<String> = ws.iter().map(|w| w.env_var()).collect();
    let paths: Vec<String> = ws.iter().map(|w| w.target_path().clone()).collect();
    assert_eq!(vars, ["ISLAND_CONTEXT_BENEATH_0", "ISLAND_CONTEXT_BENEATH_1"]);
    assert_eq!(paths, ["/work/a", "/work/b"]);
}

#[test]
fn workspace_environment_from_targets() {
    let profile = profile_with_contexts(&["/work"]);
    let targets: Vec<String> = ["/c", "/d", "/s", "/k", "/r", "/t"].iter().map(|s| s.to_string()).collect();
    let m = WorkspaceManager::from_targets(&targets, &profile);
    let expected: Vec<(String, String)> = [
        ("ISLAND_CONTEXT_BENEATH_0", "/work"),
        ("TMPDIR", "/t"),
        ("XDG_CACHE_HOME", "/k"),
        ("XDG_CONFIG_HOME", "/c"),
        ("XDG_DATA_HOME", "/d"),
        ("XDG_RUNTIME_DIR", "/r"),
        ("XDG_STATE_HOME", "/s"),
    ]
    .iter()
    .map(|(a, b)| (a.to_string(), b.to_string()))
    .collect();
    assert_eq!(m.env_vars(), &expected);
    assert!(WorkspaceManager::default().env_vars().is_empty());
}

#[test]
fn update_environment_overrides_and_warns() {
    let profile = Profile::default();
    let targets: Vec<String> = ["/c", "/d", "/s", "/k", "/r", "/t"].iter().map(|s| s.to_string()).collect();
    let m = WorkspaceManager::from_targets(&targets, &profile);
    let mut env = vec![("HOME".to_string(), "/home/u".to_string()), ("TMPDIR".to_string(), "/tmp".to_string())];
    let warnings = m.update_environment(&mut env);
    assert_eq!(warnings, vec!["Warning: Overwriting existing environment variable TMPDIR with workspace value".to_string()]);
    assert_eq!(env.len(), 7);
    assert!(env.contains(&("TMPDIR".to_string(), "/t".to_string())));
    assert!(env.contains(&("HOME".to_string(), "/home/u".to_string())));
}

#[test]
fn setup_under_a_shared_lock_asks_for_the_exclusive_one() {
    let profile = Profile::default();
    let (mut setup, step) = WorkspaceSetup::start(LockMode::Shared);
    assert!(matches!(step, SetupStep::Inspect(SymlinkWorkspace::Xdg(Xdg::ConfigHome))));
    let step = setup.inspected(&LinkState::Resolved("/c".to_string()), "/p/workspace-config", &profile);
    assert!(matches!(step, SetupStep::Inspect(SymlinkWorkspace::Xdg(Xdg::DataHome))));
    let step = setup.inspected(&LinkState::Missing, "/p/workspace-data", &profile);
    assert!(matches!(step, SetupStep::NeedsUpdate));
}

#[test]
fn setup_under_the_exclusive_lock_creates_what_is_missing() {
    let profile = Profile::default();
    let (mut setup, _) = WorkspaceSetup::start(LockMode::Exclusive);
    let mut step = setup.inspected(&LinkState::Unresolvable("gone".to_string()), "/p/workspace-config", &profile);
    assert!(matches!(
        step,
        SetupStep::Recreate { workspace: SymlinkWorkspace::Xdg(Xdg::ConfigHome), remove: true, warning: Some(ref w) }
            if w == "Warning: failed to resolve directory /p/workspace-config: gone"
    ));
    let dirs = ["/c", "/d", "/s", "/k", "/r", "/t"];
    let mut i = 0;
    loop {
        match step {
            SetupStep::Recreate { .. } => {
                step = setup.created(dirs[i].to_string(), &profile);
                i += 1;
            }
            SetupStep::Inspect(_) => {
                step = setup.inspected(&LinkState::Missing, "/p/l", &profile);
            }
            SetupStep::Done(m) => {
                assert_eq!(i, 6);
                assert_eq!(m.env_vars().len(), 6);
                assert!(m.env_vars().contains(&("TMPDIR".to_string(), "/t".to_string())));
                break;
            }
            SetupStep::NeedsUpdate => panic!("the exclusive lock allows changes"),
        }
    }
}

#[test]
fn no_workspace_when_the_profile_turns_it_off() {
    let outcomes: Vec<ContextOutcome> = Vec::new();
    let (profile, _) = IslandConfig::parse_profile_config("p", &outcomes, &Vec::new(), Some(false));
    let (_, step) = WorkspaceSetup::begin(&profile);
    assert!(matches!(step, SetupStep::Done(ref m) if m.env_vars().is_empty()));
    let (profile, _) = IslandConfig::parse_profile_config("p", &outcomes, &Vec::new(), None);
    let (setup, step) = WorkspaceSetup::begin(&profile);
    assert!(matches!(step, SetupStep::Inspect(SymlinkWorkspace::Xdg(Xdg::ConfigHome))));
    assert_eq!(setup.lock_mode(), LockMode::Shared);
}

#[test]
fn escalation_starts_over_under_the_exclusive_lock() {
    let profile = Profile::default();
    let (mut setup, _) = WorkspaceSetup::start(LockMode::Shared);
    setup.inspected(&LinkState::Resolved("/c".to_string()), "/p/workspace-config", &profile);
    let step = setup.inspected(&LinkState::Missing, "/p/workspace-data", &profile);
    assert!(matches!(step, SetupStep::NeedsUpdate));
    let step = setup.escalate();
    assert_eq!(setup.lock_mode(), LockMode::Exclusive);
    assert!(matches!(step, SetupStep::Inspect(SymlinkWorkspace::Xdg(Xdg::ConfigHome))));
    let step = setup.inspected(&LinkState::Missing, "/p/workspace-config", &profile);
    assert!(matches!(step, SetupStep::Recreate { remove: false, .. }));
}

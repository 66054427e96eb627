//! Workspace environment planning for Island profiles.
//!
//! Each profile gets isolated workspace directories for the XDG directories
//! and `TMPDIR`, reached through symlinks in the profile directory, and each
//! of its `when_beneath` directories is exposed through an environment
//! variable.  This module decides what to do with each workspace symlink and
//! which environment the sandboxed program gets; the program performs the
//! file system work.
use vstd::prelude::*;
use crate::config::Profile;
use crate::context::ContextSet;
use crate::envmap::{pairs_view, keys_sorted, pairs_map, map_insert};
use crate::lock::{LockMode, ModifyPermission, modify_permission};
use crate::path::{has_root, join, join_spec, parent, parent_spec, is_absolute};
use crate::text::{concat_str, decimal, decimal_string, char_seq_order};

verus! {

/// XDG directories.  They should all be created in directories owned by the
/// current user.
#[derive(Debug, Clone, Copy, PartialEq, Eq, Structural)]
pub enum Xdg {
    /// XDG configuration directory (`XDG_CONFIG_HOME`)
    ConfigHome,
    /// XDG data directory (`XDG_DATA_HOME`)
    DataHome,
    /// XDG state directory (`XDG_STATE_HOME`)
    StateHome,
    /// XDG cache directory (`XDG_CACHE_HOME`)
    CacheHome,
    /// XDG runtime directory (`XDG_RUNTIME_DIR`)
    RuntimeDir,
}

impl Xdg {
    /// The environment variable naming this directory.
    pub open spec fn env_var_text(self) -> Seq<char> {
        match self {
            Xdg::ConfigHome => "XDG_CONFIG_HOME"@,
            Xdg::DataHome => "XDG_DATA_HOME"@,
            Xdg::StateHome => "XDG_STATE_HOME"@,
            Xdg::CacheHome => "XDG_CACHE_HOME"@,
            Xdg::RuntimeDir => "XDG_RUNTIME_DIR"@,
        }
    }

    /// The symlink name used in profile directories.
    pub open spec fn symlink_name_text(self) -> Seq<char> {
        match self {
            Xdg::ConfigHome => "workspace-config"@,
            Xdg::DataHome => "workspace-data"@,
            Xdg::StateHome => "workspace-state"@,
            Xdg::CacheHome => "workspace-cache"@,
            Xdg::RuntimeDir => "workspace-run"@,
        }
    }

    /// The fallback path relative to `$HOME`, if there is one.
    pub open spec fn fallback_text(self) -> Option<Seq<char>> {
        match self {
            Xdg::ConfigHome => Some(".config"@),
            Xdg::DataHome => Some(".local/share"@),
            Xdg::StateHome => Some(".local/state"@),
            Xdg::CacheHome => Some(".cache"@),
            Xdg::RuntimeDir => None,
        }
    }

    /// The subdirectory used for Island profile isolation.
    pub open spec fn subdir_text(self) -> Seq<char> {
        match self {
            Xdg::ConfigHome => "island-config-profiles"@,
            Xdg::DataHome => "island-data-profiles"@,
            Xdg::StateHome => "island-state-profiles"@,
            Xdg::CacheHome => "island-cache-profiles"@,
            Xdg::RuntimeDir => "island-run-profiles"@,
        }
    }

    /// Returns the environment variable name for this XDG directory.
    pub fn env_var(&self) -> (r: &'static str)
        ensures
            r@ == self.env_var_text(),
    {
        match self {
            Xdg::ConfigHome => "XDG_CONFIG_HOME",
            Xdg::DataHome => "XDG_DATA_HOME",
            Xdg::StateHome => "XDG_STATE_HOME",
            Xdg::CacheHome => "XDG_CACHE_HOME",
            Xdg::RuntimeDir => "XDG_RUNTIME_DIR",
        }
    }

    /// Returns the symlink name used in profile directories.
    pub fn symlink_name(&self) -> (r: &'static str)
        ensures
            r@ == self.symlink_name_text(),
    {
        match self {
            Xdg::ConfigHome => "workspace-config",
            Xdg::DataHome => "workspace-data",
            Xdg::StateHome => "workspace-state",
            Xdg::CacheHome => "workspace-cache",
            Xdg::RuntimeDir => "workspace-run",
        }
    }

    /// Returns the fallback path relative to `$HOME`, or `None` if no fallback
    /// exists.
    pub fn fallback_path(&self) -> (r: Option<&'static str>)
        ensures
            match r {
                Some(p) => self.fallback_text() == Some(p@),
                None => self.fallback_text() is None,
            },
    {
        match self {
            Xdg::ConfigHome => Some(".config"),
            Xdg::DataHome => Some(".local/share"),
            Xdg::StateHome => Some(".local/state"),
            Xdg::CacheHome => Some(".cache"),
            Xdg::RuntimeDir => None,
        }
    }

    /// Returns the subdirectory name used for Island profile isolation.
    pub fn subdir(&self) -> (r: &'static str)
        ensures
            r@ == self.subdir_text(),
    {
        match self {
            Xdg::ConfigHome => "island-config-profiles",
            Xdg::DataHome => "island-data-profiles",
            Xdg::StateHome => "island-state-profiles",
            Xdg::CacheHome => "island-cache-profiles",
            Xdg::RuntimeDir => "island-run-profiles",
        }
    }
}

/// Workspace directory types.
#[derive(Debug, Clone, Copy, PartialEq, Eq, Structural)]
pub enum SymlinkWorkspace {
    /// XDG Base Directory specification directory
    Xdg(Xdg),
    /// Temporary directory
    TmpDir,
}

impl SymlinkWorkspace {
    /// The environment variable of this workspace type.
    pub open spec fn env_var_text(self) -> Seq<char> {
        match self {
            SymlinkWorkspace::Xdg(x) => x.env_var_text(),
            SymlinkWorkspace::TmpDir => "TMPDIR"@,
        }
    }

    /// The symlink name of this workspace type.
    pub open spec fn symlink_name_text(self) -> Seq<char> {
        match self {
            SymlinkWorkspace::Xdg(x) => x.symlink_name_text(),
            SymlinkWorkspace::TmpDir => "workspace-tmp"@,
        }
    }

    /// Returns the environment variable name for this workspace type.
    pub fn env_var(&self) -> (r: &'static str)
        ensures
            r@ == self.env_var_text(),
    {
        match self {
            SymlinkWorkspace::Xdg(xdg) => xdg.env_var(),
            SymlinkWorkspace::TmpDir => "TMPDIR",
        }
    }

    /// Returns the symlink name used in profile directories.
    pub fn symlink_name(&self) -> (r: &'static str)
        ensures
            r@ == self.symlink_name_text(),
    {
        match self {
            SymlinkWorkspace::Xdg(xdg) => xdg.symlink_name(),
            SymlinkWorkspace::TmpDir => "workspace-tmp",
        }
    }
}

/// All supported workspace types, in the order they are set up.
pub open spec fn symlink_workspaces_spec() -> Seq<SymlinkWorkspace> {
    seq![
        SymlinkWorkspace::Xdg(Xdg::ConfigHome),
        SymlinkWorkspace::Xdg(Xdg::DataHome),
        SymlinkWorkspace::Xdg(Xdg::StateHome),
        SymlinkWorkspace::Xdg(Xdg::CacheHome),
        SymlinkWorkspace::Xdg(Xdg::RuntimeDir),
        SymlinkWorkspace::TmpDir,
    ]
}

/// All supported workspace types, in the order they are set up.
pub fn symlink_workspaces() -> (r: Vec<SymlinkWorkspace>)
    ensures
        r@ == symlink_workspaces_spec(),
{
    let r = vec![
        SymlinkWorkspace::Xdg(Xdg::ConfigHome),
        SymlinkWorkspace::Xdg(Xdg::DataHome),
        SymlinkWorkspace::Xdg(Xdg::StateHome),
        SymlinkWorkspace::Xdg(Xdg::CacheHome),
        SymlinkWorkspace::Xdg(Xdg::RuntimeDir),
        SymlinkWorkspace::TmpDir,
    ];
    assert(r@ =~= symlink_workspaces_spec());
    r
}

/// The temporary directory: `$TMPDIR`, or else `/tmp`.
pub fn read_temp_dir(tmpdir: Option<&str>) -> (r: String)
    ensures
        r@ == match tmpdir {
            Some(t) => t@,
            None => "/tmp"@,
        },
{
    match tmpdir {
        Some(t) => t.to_string(),
        None => "/tmp".to_string(),
    }
}

/// Name prefix of a profile's temporary directory: the user id keeps users
/// apart and the profile name keeps sandboxes of one user apart.
pub fn tmp_dir_prefix(uid: u32, profile_name: &str) -> (r: String)
    ensures
        r@ == "island-tmp-"@ + decimal(uid as nat) + "-"@ + profile_name@ + "-"@,
{
    let u = decimal_string(uid as u64);
    let a = concat_str("island-tmp-", &u);
    let b = concat_str(&a, "-");
    let c = concat_str(&b, profile_name);
    concat_str(&c, "-")
}

/// The base directory of an XDG workspace: the directory that the variable
/// named before any change, or else its fallback beneath `home`.
pub open spec fn xdg_base_spec(xdg: Xdg, initial: Option<Seq<char>>, home: Option<Seq<char>>) -> Result<Seq<char>, Seq<char>> {
    match initial {
        Some(v) => Ok(v),
        None => match xdg.fallback_text() {
            Some(f) => match home {
                Some(h) => Ok(join_spec(h, f)),
                None => Err("Neither "@ + xdg.env_var_text() + " nor HOME environment variables are set"@),
            },
            None => Err(xdg.env_var_text() + " environment variable is not set"@),
        },
    }
}

/// Law: the directory a variable named before any change is the base,
/// whatever the variable's fallback; only where the variable was not set is
/// the fallback beneath `home` used, and there is no base exactly where
/// neither gives one.
pub proof fn lemma_xdg_variable_first(xdg: Xdg, initial: Option<Seq<char>>, home: Option<Seq<char>>)
    ensures
        initial matches Some(v) ==> xdg_base_spec(xdg, initial, home) == Ok::<Seq<char>, Seq<char>>(v),
        (initial is None && home is Some && xdg.fallback_text() is Some) ==> xdg_base_spec(xdg, initial, home)
            == Ok::<Seq<char>, Seq<char>>(join_spec(home->0, xdg.fallback_text()->0)),
        xdg_base_spec(xdg, initial, home) is Err <==> (initial is None && (home is None || xdg.fallback_text() is None)),
{
}

/// The workspace directory of a profile for an XDG type: the base directory,
/// the isolation subdirectory, then the profile name; or why there is none.
pub fn xdg_workspace_dir(xdg: Xdg, profile_name: &str, initial: Option<&str>, home: Option<&str>) -> (r: Result<String, String>)
    ensures
        match r {
            Ok(d) => {
                &&& xdg_base_spec(xdg, opt_view(initial), opt_view(home)) is Ok
                &&& d@ == join_spec(join_spec(xdg_base_spec(xdg, opt_view(initial), opt_view(home))->Ok_0, xdg.subdir_text()), profile_name@)
            },
            Err(m) => xdg_base_spec(xdg, opt_view(initial), opt_view(home)) == Err::<Seq<char>, Seq<char>>(m@),
        },
        initial matches Some(v) ==> (r matches Ok(d) && d@ == join_spec(join_spec(v@, xdg.subdir_text()), profile_name@)),
        (initial is None && home is Some && xdg.fallback_text() is Some) ==> (r matches Ok(d) && d@ == join_spec(
            join_spec(join_spec(home->0@, xdg.fallback_text()->0), xdg.subdir_text()),
            profile_name@,
        )),
        r is Err <==> (initial is None && (home is None || xdg.fallback_text() is None)),
{
    proof {
        lemma_xdg_variable_first(xdg, opt_view(initial), opt_view(home));
    }
    let base = match initial {
        Some(v) => v.to_string(),
        None => match xdg.fallback_path() {
            Some(f) => match home {
                Some(h) => join(h, f),
                None => {
                    let a = concat_str("Neither ", xdg.env_var());
                    return Err(concat_str(&a, " nor HOME environment variables are set"));
                },
            },
            None => {
                return Err(concat_str(xdg.env_var(), " environment variable is not set"));
            },
        },
    };
    let d = join(&base, xdg.subdir());
    Ok(join(&d, profile_name))
}

/// The view of an optional string.
pub open spec fn opt_view(o: Option<&str>) -> Option<Seq<char>> {
    match o {
        Some(s) => Some(s@),
        None => None,
    }
}

/// Where a symlink points, made absolute: an absolute target as is, a
/// relative one beneath the symlink's parent directory (none if the symlink
/// has no parent).
pub fn symlink_target(path: &str, target: &str) -> (r: Option<String>)
    ensures
        has_root(target@) ==> r is Some && r->0@ == target@,
        !has_root(target@) ==> match parent_spec(path@) {
            Some(p) => r is Some && r->0@ == join_spec(p, target@),
            None => r is None,
        },
{
    if is_absolute(target) {
        return Some(target.to_string());
    }
    match parent(path) {
        Some(p) => Some(join(&p, target)),
        None => None,
    }
}

/// The refusal of a temporary workspace whose symlink and first-level target
/// have different owners, if they do.
pub fn ownership_error(path: &str, symlink_uid: u32, target_uid: u32, absolute_target: &str) -> (r: Option<String>)
    ensures
        symlink_uid == target_uid ==> r is None,
        symlink_uid != target_uid ==> r is Some && r->0@ == "Security: Symlink "@ + path@ + " (UID "@
            + decimal(symlink_uid as nat) + ") points to target owned by different UID "@ + decimal(
            target_uid as nat,
        ) + ": "@ + absolute_target@,
{
    if symlink_uid == target_uid {
        return None;
    }
    let su = decimal_string(symlink_uid as u64);
    let tu = decimal_string(target_uid as u64);
    let a = concat_str("Security: Symlink ", path);
    let b = concat_str(&a, " (UID ");
    let c = concat_str(&b, &su);
    let d = concat_str(&c, ") points to target owned by different UID ");
    let e = concat_str(&d, &tu);
    let f = concat_str(&e, ": ");
    Some(concat_str(&f, absolute_target))
}

/// What was found at a workspace symlink.
#[derive(Debug)]
pub enum LinkState {
    /// The path exists and resolved safely to this directory.
    Resolved(String),
    /// The path exists but could not be resolved safely, for this reason.
    Unresolvable(String),
    /// The path does not exist but is a symlink: its target is missing.
    Dangling,
    /// Nothing is there.
    Missing,
}

/// What to do about a workspace symlink.
#[derive(Debug, PartialEq, Eq)]
pub enum WorkspaceAction {
    /// Use this existing directory.
    Use(String),
    /// A change is needed, which the shared lock does not allow.
    NeedsUpdate,
    /// Remove the symlink (after showing the warning, if any), then create a
    /// new directory and link it.
    RemoveAndCreate { warning: Option<String> },
    /// Create a new directory and link it.
    Create,
}

/// Decides what to do with a workspace symlink.  A safely resolved directory
/// is used as it is; anything else needs a change: under a shared lock that
/// asks for the exclusive lock, under the exclusive lock an insecure or
/// outdated symlink is removed and a new directory is created.
pub fn plan_workspace(mode: LockMode, state: &LinkState, symlink_path: &str) -> (r: WorkspaceAction)
    ensures
        match state {
            LinkState::Resolved(p) => r == WorkspaceAction::Use(*p),
            _ => mode == LockMode::Shared ==> r == WorkspaceAction::NeedsUpdate,
        },
        mode == LockMode::Exclusive ==> match state {
            LinkState::Resolved(_) => true,
            LinkState::Unresolvable(e) => r matches WorkspaceAction::RemoveAndCreate { warning }
                && warning is Some && warning->0@ == "Warning: failed to resolve directory "@
                + symlink_path@ + ": "@ + e@,
            LinkState::Dangling => r == WorkspaceAction::RemoveAndCreate { warning: None },
            LinkState::Missing => r == WorkspaceAction::Create,
        },
{
    match state {
        LinkState::Resolved(p) => WorkspaceAction::Use(p.clone()),
        _ => match modify_permission(mode) {
            ModifyPermission::NeedsUpdate => WorkspaceAction::NeedsUpdate,
            ModifyPermission::Proceed => match state {
                LinkState::Unresolvable(e) => {
                    let a = concat_str("Warning: failed to resolve directory ", symlink_path);
                    let b = concat_str(&a, ": ");
                    WorkspaceAction::RemoveAndCreate { warning: Some(concat_str(&b, e)) }
                },
                LinkState::Dangling => WorkspaceAction::RemoveAndCreate { warning: None },
                _ => WorkspaceAction::Create,
            },
        },
    }
}

/// A directory that a profile exposes by an absolute path.
#[derive(Debug)]
pub enum AbsoluteWorkspace {
    ContextBeneath { index: usize, path: String },
}

/// The directories of a set of contexts, in set order.
pub open spec fn context_paths(ctx: Seq<Option<Seq<char>>>) -> Seq<Seq<char>>
    decreases ctx.len(),
{
    if ctx.len() == 0 {
        Seq::empty()
    } else {
        let rest = context_paths(ctx.drop_last());
        match ctx.last() {
            Some(p) => rest.push(p),
            None => rest,
        }
    }
}

/// The environment variable of the `i`-th context directory.
pub open spec fn context_env_var(i: nat) -> Seq<char> {
    "ISLAND_CONTEXT_BENEATH_"@ + decimal(i)
}

impl AbsoluteWorkspace {
    /// One workspace per `when_beneath` directory of the profile, numbered
    /// in set order.
    pub fn new(profile: &Profile) -> (r: Vec<AbsoluteWorkspace>)
        ensures
            r.len() == context_paths(profile.contexts@).len(),
            forall|i: int| 0 <= i < r.len() ==> match #[trigger] r@[i] {
                AbsoluteWorkspace::ContextBeneath { index, path } => index == i && path@ == context_paths(profile.contexts@)[i],
            },
    {
        let ctx = &profile.contexts;
        let ghost cv = ctx@;
        let mut r: Vec<AbsoluteWorkspace> = Vec::new();
        let mut j: usize = 0;
        assert(cv.take(0) =~= Seq::<Option<Seq<char>>>::empty());
        while j < ctx.len()
            invariant
                j <= cv.len(),
                cv == ctx@,
                r.len() == context_paths(cv.take(j as int)).len(),
                forall|i: int| 0 <= i < r.len() ==> match #[trigger] r@[i] {
                    AbsoluteWorkspace::ContextBeneath { index, path } => index == i && path@ == context_paths(cv.take(j as int))[i],
                },
            decreases cv.len() - j,
        {
            proof {
                assert(cv.take(j + 1).drop_last() =~= cv.take(j as int));
                assert(cv.take(j + 1).last() == cv[j as int]);
            }
            let e = ctx.get(j);
            match &e.when_beneath {
                Some(p) => {
                    let ghost old_r = r@;
                    let idx = r.len();
                    r.push(AbsoluteWorkspace::ContextBeneath { index: idx, path: p.clone() });
                    proof {
                        assert forall|i: int| 0 <= i < r.len() implies match #[trigger] r@[i] {
                            AbsoluteWorkspace::ContextBeneath { index, path } => index == i && path@ == context_paths(cv.take(j + 1))[i],
                        } by {
                            if i < old_r.len() {
                                assert(r@[i] == old_r[i]);
                            }
                        }
                    }
                },
                None => {},
            }
            j = j + 1;
        }
        assert(cv.take(cv.len() as int) =~= cv);
        r
    }

    /// The environment variable exposing this directory.
    pub fn env_var(&self) -> (r: String)
        ensures
            match self {
                AbsoluteWorkspace::ContextBeneath { index, .. } => r@ == context_env_var(*index as nat),
            },
    {
        match self {
            AbsoluteWorkspace::ContextBeneath { index, .. } => {
                let d = decimal_string(*index as u64);
                concat_str("ISLAND_CONTEXT_BENEATH_", &d)
            },
        }
    }

    /// The directory.
    pub fn target_path(&self) -> (r: &String)
        ensures
            match self {
                AbsoluteWorkspace::ContextBeneath { path, .. } => r == path,
            },
    {
        match self {
            AbsoluteWorkspace::ContextBeneath { path, .. } => path,
        }
    }
}

/// The environment variables of a workspace, in the order they are set: each
/// workspace type with its directory, then each context directory.
pub open spec fn workspace_pairs(targets: Seq<Seq<char>>, ctx: Seq<Option<Seq<char>>>) -> Seq<(Seq<char>, Seq<char>)> {
    Seq::new(6, |i: int| (symlink_workspaces_spec()[i].env_var_text(), targets[i]))
        + Seq::new(context_paths(ctx).len(), |i: int| (context_env_var(i as nat), context_paths(ctx)[i]))
}

/// Manages workspace setup and configuration for a profile: the environment
/// variables of its workspace, by name.
#[derive(Debug, PartialEq, Eq)]
pub struct WorkspaceManager {
    env_vars: Vec<(String, String)>,
}

impl Default for WorkspaceManager {
    fn default() -> (r: Self)
        ensures
            r.wf(),
            r.env_map() == Map::<Seq<char>, Seq<char>>::empty(),
    {
        let r = WorkspaceManager { env_vars: Vec::new() };
        assert(pairs_view(r.env_vars@) =~= Seq::<(Seq<char>, Seq<char>)>::empty());
        r
    }
}

impl WorkspaceManager {
    /// The variables are kept sorted by name.
    pub closed spec fn wf(&self) -> bool {
        keys_sorted(pairs_view(self.env_vars@))
    }

    /// The environment variables, by name.
    pub closed spec fn env_map(&self) -> Map<Seq<char>, Seq<char>> {
        pairs_map(pairs_view(self.env_vars@))
    }

    /// The environment variables as name-value pairs, sorted by name.
    pub closed spec fn env_pairs(&self) -> Seq<(Seq<char>, Seq<char>)> {
        pairs_view(self.env_vars@)
    }

    /// The environment variables as name-value pairs sorted by name.
    pub fn env_vars(&self) -> (r: &Vec<(String, String)>)
        requires
            self.wf(),
        ensures
            pairs_view(r@) == self.env_pairs(),
            keys_sorted(pairs_view(r@)),
            pairs_map(pairs_view(r@)) == self.env_map(),
    {
        &self.env_vars
    }

    /// The workspace of a profile, given the directory found or created for
    /// each workspace type (in the order of `symlink_workspaces`).
    pub fn from_targets(targets: &Vec<String>, profile: &Profile) -> (r: Self)
        requires
            targets.len() == 6,
        ensures
            r.wf(),
            r.env_map() == pairs_map(workspace_pairs(targets@.map_values(|s: String| s@), profile.contexts@)),
    {
        let ghost tv = targets@.map_values(|s: String| s@);
        let ghost pairs = workspace_pairs(tv, profile.contexts@);
        let kinds = symlink_workspaces();
        let mut env: Vec<(String, String)> = Vec::new();
        let mut i: usize = 0;
        proof {
            assert(pairs_view(env@) =~= Seq::<(Seq<char>, Seq<char>)>::empty());
            assert(pairs.take(0) =~= Seq::<(Seq<char>, Seq<char>)>::empty());
        }
        while i < 6
            invariant
                i <= 6,
                targets.len() == 6,
                kinds@ == symlink_workspaces_spec(),
                tv == targets@.map_values(|s: String| s@),
                pairs == workspace_pairs(tv, profile.contexts@),
                keys_sorted(pairs_view(env@)),
                pairs_map(pairs_view(env@)) == pairs_map(pairs.take(i as int)),
            decreases 6 - i,
        {
            let name = kinds[i].env_var().to_string();
            let value = targets[i].clone();
            proof {
                assert(pairs[i as int] == (name@, value@));
                assert(pairs.take(i + 1).drop_last() =~= pairs.take(i as int));
                assert(pairs.take(i + 1).last() == pairs[i as int]);
            }
            map_insert(&mut env, name, value);
            i = i + 1;
        }
        let abs = AbsoluteWorkspace::new(profile);
        let mut j: usize = 0;
        while j < abs.len()
            invariant
                j <= abs.len(),
                abs.len() == context_paths(profile.contexts@).len(),
                forall|a: int| 0 <= a < abs.len() ==> match #[trigger] abs@[a] {
                    AbsoluteWorkspace::ContextBeneath { index, path } => index == a && path@ == context_paths(profile.contexts@)[a],
                },
                pairs == workspace_pairs(tv, profile.contexts@),
                pairs.len() == 6 + abs.len(),
                keys_sorted(pairs_view(env@)),
                pairs_map(pairs_view(env@)) == pairs_map(pairs.take(6 + j)),
            decreases abs.len() - j,
        {
            let w = &abs[j];
            let name = w.env_var();
            let value = w.target_path().clone();
            proof {
                assert(abs@[j as int] == *w);
                assert(pairs[6 + j] == (name@, value@));
                assert(pairs.take(6 + j + 1).drop_last() =~= pairs.take(6 + j));
                assert(pairs.take(6 + j + 1).last() == pairs[6 + j]);
            }
            map_insert(&mut env, name, value);
            j = j + 1;
        }
        assert(pairs.take(6 + abs.len()) =~= pairs);
        WorkspaceManager { env_vars: env }
    }

    /// Adds the workspace variables to an environment, a workspace value
    /// replacing an existing one.  Returns a warning for each replaced variable.
    pub fn update_environment(&self, env_vars: &mut Vec<(String, String)>) -> (r: Vec<String>)
        requires
            self.wf(),
            keys_sorted(pairs_view(old(env_vars)@)),
        ensures
            keys_sorted(pairs_view(final(env_vars)@)),
            pairs_map(pairs_view(final(env_vars)@)) == pairs_map(pairs_view(old(env_vars)@)).union_prefer_right(self.env_map()),
            r@.map_values(|w: String| w@) == overwrite_warnings(self.env_pairs(), pairs_map(pairs_view(old(env_vars)@))),
    {
        let ghost mine = pairs_view(self.env_vars@);
        let ghost start = pairs_map(pairs_view(env_vars@));
        let mut warnings: Vec<String> = Vec::new();
        let mut i: usize = 0;
        proof {
            assert(mine.take(0) =~= Seq::<(Seq<char>, Seq<char>)>::empty());
            assert(start.union_prefer_right(pairs_map(mine.take(0))) =~= start);
            assert(warnings@.map_values(|w: String| w@) =~= Seq::<Seq<char>>::empty());
        }
        while i < self.env_vars.len()
            invariant
                i <= self.env_vars.len(),
                mine == pairs_view(self.env_vars@),
                keys_sorted(mine),
                keys_sorted(pairs_view(env_vars@)),
                pairs_map(pairs_view(env_vars@)) == start.union_prefer_right(pairs_map(mine.take(i as int))),
                warnings@.map_values(|w: String| w@) == overwrite_warnings(mine.take(i as int), start),
            decreases self.env_vars.len() - i,
        {
            let name = self.env_vars[i].0.clone();
            let value = self.env_vars[i].1.clone();
            let ghost before = warnings@;
            proof {
                assert(mine[i as int] == (name@, value@));
                assert(mine.take(i + 1).drop_last() =~= mine.take(i as int));
                assert(mine.take(i + 1).last() == mine[i as int]);
                lemma_take_keys_absent(mine, i as int);
                assert(start.union_prefer_right(pairs_map(mine.take(i + 1))) =~= start.union_prefer_right(
                    pairs_map(mine.take(i as int)),
                ).insert(name@, value@));
            }
            let replaced = map_insert(env_vars, name.clone(), value);
            proof {
                assert(pairs_map(pairs_view(env_vars@)) =~= start.union_prefer_right(pairs_map(mine.take(i + 1))));
            }
            match replaced {
                Some(_) => {
                    let a = concat_str("Warning: Overwriting existing environment variable ", &name);
                    let m = concat_str(&a, " with workspace value");
                    warnings.push(m);
                    proof {
                        assert(warnings@.map_values(|w: String| w@) =~= before.map_values(|w: String| w@).push(m@));
                    }
                },
                None => {},
            }
            i = i + 1;
        }
        assert(mine.take(self.env_vars.len() as int) =~= mine);
        warnings
    }
}

/// A workspace variable replaces an existing one only if the name was set
/// before the workspace was added (workspace names are distinct).
pub open spec fn overwrite_warnings(mine: Seq<(Seq<char>, Seq<char>)>, start: Map<Seq<char>, Seq<char>>) -> Seq<Seq<char>>
    decreases mine.len(),
{
    if mine.len() == 0 {
        Seq::empty()
    } else {
        let w = overwrite_warnings(mine.drop_last(), start);
        if start.contains_key(mine.last().0) {
            w.push("Warning: Overwriting existing environment variable "@ + mine.last().0 + " with workspace value"@)
        } else {
            w
        }
    }
}

/// The `i`-th name of sorted pairs is not among the earlier ones.
proof fn lemma_take_keys_absent(s: Seq<(Seq<char>, Seq<char>)>, i: int)
    requires
        keys_sorted(s),
        0 <= i < s.len(),
    ensures
        !pairs_map(s.take(i)).contains_key(s[i].0),
{
    let t = s.take(i);
    assert(keys_sorted(t)) by {
        assert forall|a: int, b: int| 0 <= a < b < t.len() implies char_seq_order(t[a].0, t[b].0) < 0 by {
            assert(t[a] == s[a] && t[b] == s[b]);
            assert(0 <= a < b < s.len());
            assert(char_seq_order(s[a].0, s[b].0) < 0);
        }
    }
    crate::envmap::lemma_pairs_map(t);
    if pairs_map(t).contains_key(s[i].0) {
        let k = choose|k: int| 0 <= k < t.len() && #[trigger] t[k].0 == s[i].0;
        assert(t[k] == s[k]);
        crate::text::lemma_char_seq_order_antisym(s[k].0, s[i].0);
    }
}


/// What the program does next while setting up a profile's workspaces.
#[derive(Debug)]
pub enum SetupStep {
    /// Look at the symlink of this workspace type in the profile directory
    /// and report what is there.
    Inspect(SymlinkWorkspace),
    /// Show the warning (if any), remove the symlink if asked, then create
    /// a new directory for this workspace type, link it, and report it.
    Recreate { workspace: SymlinkWorkspace, remove: bool, warning: Option<String> },
    /// A change is needed that the shared lock does not allow: set up again
    /// under the exclusive lock.
    NeedsUpdate,
    /// Every workspace is set.
    Done(WorkspaceManager),
}

/// The setup of a profile's workspace directories under a lock, one
/// workspace type after the other (`symlink_workspaces` order): an existing
/// directory that resolves safely is used, anything else is replaced by a new
/// directory, which needs the exclusive lock.
pub struct WorkspaceSetup {
    mode: LockMode,
    kinds: Vec<SymlinkWorkspace>,
    targets: Vec<String>,
}

impl WorkspaceSetup {
    /// The directories set so far, in order.
    pub closed spec fn targets(&self) -> Seq<Seq<char>> {
        self.targets@.map_values(|s: String| s@)
    }

    /// The lock held.
    pub closed spec fn mode(&self) -> LockMode {
        self.mode
    }

    /// The workspace types set so far are a prefix of all of them, and one
    /// is left.
    pub closed spec fn wf(&self) -> bool {
        &&& self.kinds@ == symlink_workspaces_spec()
        &&& self.targets@.len() < 6
    }

    /// The workspace type being set.
    pub closed spec fn current(&self) -> SymlinkWorkspace {
        symlink_workspaces_spec()[self.targets@.len() as int]
    }

    /// Starts the setup under a lock: the first workspace type is inspected.
    pub fn start(mode: LockMode) -> (r: (WorkspaceSetup, SetupStep))
        ensures
            r.0.wf(),
            r.0.mode() == mode,
            r.0.targets() == Seq::<Seq<char>>::empty(),
            r.1 matches SetupStep::Inspect(w) && w == symlink_workspaces_spec()[0],
    {
        let kinds = symlink_workspaces();
        let first = kinds[0];
        let r = WorkspaceSetup { mode, kinds, targets: Vec::new() };
        assert(r.targets() =~= Seq::<Seq<char>>::empty());
        (r, SetupStep::Inspect(first))
    }

    /// Starts the setup of a profile's workspace.  A profile whose
    /// `workspace` setting is off gets no workspace: no variable at all.
    /// Otherwise the setup starts under the shared lock, with the first
    /// workspace type.
    pub fn begin(profile: &Profile) -> (r: (WorkspaceSetup, SetupStep))
        ensures
            !profile.workspace ==> (r.1 matches SetupStep::Done(m) && m.wf() && m.env_map() == Map::<
                Seq<char>,
                Seq<char>,
            >::empty()),
            profile.workspace ==> {
                &&& r.0.wf()
                &&& r.0.mode() == LockMode::Shared
                &&& r.0.targets() == Seq::<Seq<char>>::empty()
                &&& r.1 matches SetupStep::Inspect(w) && w == symlink_workspaces_spec()[0]
            },
    {
        let (setup, step) = WorkspaceSetup::start(LockMode::Shared);
        if !profile.workspace {
            return (setup, SetupStep::Done(WorkspaceManager::default()));
        }
        (setup, step)
    }

    /// The shared lock was not enough (`SetupStep::NeedsUpdate`): the setup
    /// starts over under the exclusive lock, with the first workspace type.
    pub fn escalate(&mut self) -> (r: SetupStep)
        requires
            old(self).mode() == LockMode::Shared,
        ensures
            final(self).wf(),
            final(self).mode() == LockMode::Exclusive,
            final(self).targets() == Seq::<Seq<char>>::empty(),
            r matches SetupStep::Inspect(w) && w == symlink_workspaces_spec()[0],
    {
        let (setup, step) = WorkspaceSetup::start(LockMode::Exclusive);
        *self = setup;
        step
    }

    /// The lock the setup runs under.
    pub fn lock_mode(&self) -> (r: LockMode)
        ensures
            r == self.mode(),
    {
        self.mode
    }

    /// Records the directory of the current workspace type and goes on with
    /// the next one, or ends with the workspace's environment.
    fn accept(&mut self, target: String, profile: &Profile) -> (r: SetupStep)
        requires
            old(self).wf(),
        ensures
            final(self).targets() == old(self).targets().push(target@),
            final(self).mode() == old(self).mode(),
            final(self).targets().len() < 6 ==> final(self).wf() && (r matches SetupStep::Inspect(w) && w == final(self).current()),
            final(self).targets().len() == 6 ==> (r matches SetupStep::Done(m) && m.wf() && m.env_map() == pairs_map(
                workspace_pairs(final(self).targets(), profile.contexts@),
            )),
    {
        let ghost before = self.targets();
        let ghost tv = target@;
        self.targets.push(target);
        assert(self.targets() =~= before.push(tv));
        if self.targets.len() < 6 {
            let next = self.kinds[self.targets.len()];
            SetupStep::Inspect(next)
        } else {
            SetupStep::Done(WorkspaceManager::from_targets(&self.targets, profile))
        }
    }

    /// What was found at the current workspace's symlink (`symlink_path`).
    /// A safely resolved directory is used; otherwise, under the shared lock
    /// the setup needs the exclusive one, and under the exclusive lock the
    /// symlink is replaced (removed first unless nothing is there).
    pub fn inspected(&mut self, state: &LinkState, symlink_path: &str, profile: &Profile) -> (r: SetupStep)
        requires
            old(self).wf(),
        ensures
            match state {
                LinkState::Resolved(p) => {
                    &&& final(self).targets() == old(self).targets().push(p@)
                    &&& final(self).targets().len() < 6 ==> final(self).wf() && (r matches SetupStep::Inspect(w) && w
                        == final(self).current())
                    &&& final(self).targets().len() == 6 ==> (r matches SetupStep::Done(m) && m.wf() && m.env_map()
                        == pairs_map(workspace_pairs(final(self).targets(), profile.contexts@)))
                },
                _ => {
                    &&& final(self).wf()
                    &&& final(self).targets() == old(self).targets()
                    &&& old(self).mode() == LockMode::Shared ==> r is NeedsUpdate
                    &&& old(self).mode() == LockMode::Exclusive ==> match state {
                        LinkState::Unresolvable(e) => (r matches SetupStep::Recreate { workspace, remove, warning }
                            && workspace == old(self).current() && remove && warning is Some && warning->0@
                            == "Warning: failed to resolve directory "@ + symlink_path@ + ": "@ + e@),
                        LinkState::Dangling => (r matches SetupStep::Recreate { workspace, remove, warning }
                            && workspace == old(self).current() && remove && warning is None),
                        _ => (r matches SetupStep::Recreate { workspace, remove, warning }
                            && workspace == old(self).current() && !remove && warning is None),
                    }
                },
            },
            final(self).mode() == old(self).mode(),
    {
        let current = self.kinds[self.targets.len()];
        match plan_workspace(self.mode, state, symlink_path) {
            WorkspaceAction::Use(p) => self.accept(p, profile),
            WorkspaceAction::NeedsUpdate => SetupStep::NeedsUpdate,
            WorkspaceAction::RemoveAndCreate { warning } => SetupStep::Recreate { workspace: current, remove: true, warning },
            WorkspaceAction::Create => SetupStep::Recreate { workspace: current, remove: false, warning: None },
        }
    }

    /// The directory created and linked for the current workspace type; a
    /// directory is only created under the exclusive lock.
    pub fn created(&mut self, dir: String, profile: &Profile) -> (r: SetupStep)
        requires
            old(self).wf(),
            old(self).mode() == LockMode::Exclusive,
        ensures
            final(self).targets() == old(self).targets().push(dir@),
            final(self).mode() == old(self).mode(),
            final(self).targets().len() < 6 ==> final(self).wf() && (r matches SetupStep::Inspect(w) && w == final(self).current()),
            final(self).targets().len() == 6 ==> (r matches SetupStep::Done(m) && m.wf() && m.env_map() == pairs_map(
                workspace_pairs(final(self).targets(), profile.contexts@),
            )),
    {
        self.accept(dir, profile)
    }
}

} // verus!

//! Profiles, their configuration, and the resolution of the profiles that
//! apply to a directory or that are named explicitly.
use vstd::prelude::*;
use crate::context::{
    ContextEntry, ContextSet, InsertResult, Precedence, precedence_of, entries_wf, entry_debug,
    entries_debug, entries_view, set_after_insert, insert_ignored, warning_text,
    lemma_set_after_insert_has, lemma_ignored_persists, lemma_inserted_is_held,
};
use crate::path::{path_starts_with, starts_with, join, join_spec, components, path_order, Comp, lemma_comps_prefix_order, lemma_comps_order_antisym};
use crate::lock::{LockMode, ModifyPermission, modify_permission};
use crate::resolved::{ResolvedProfile, resolved_view, resolved_order, resolved_sorted, lemma_resolved_order_antisym, lemma_resolved_order_trans};
use crate::text::{
    Order, char_seq_order, compare_strings, strings_eq, concat_str, lemma_char_seq_order_antisym,
    lemma_char_seq_order_trans,
};


verus! {

/// `std::io::Error`, carried through the library's errors.
#[verifier::external_type_specification]
#[verifier::external_body]
pub struct ExIoError(std::io::Error);

/// `toml::de::Error`, carried through the library's errors.
#[verifier::external_type_specification]
#[verifier::external_body]
pub struct ExTomlDeError(toml::de::Error);

/// File name of the default base Landlock configuration of a profile.
pub const ISLAND_DEFAULT_CONFIG_BASE_NAME: &'static str = "island-default-base.toml";

/// File name of the custom Landlock configuration of a profile.
pub const ISLAND_CUSTOM_CONFIG_NAME: &'static str = "island-custom.toml";

/// The stage at which a profile's Landlock configuration was refused.
#[derive(Debug)]
pub enum LandlockConfigErrorKind {
    /// The configuration directory could not be parsed.
    Parse { source: String },
    /// The parsed configuration could not be resolved.
    Resolve { source: String },
}

/// A Landlock configuration error, with the profile it belongs to.
#[derive(Debug)]
pub struct LandlockConfigError {
    pub profile_name: String,
    pub landlock_dir: String,
    pub kind: LandlockConfigErrorKind,
}

/// Errors while loading or resolving profiles.
#[derive(Debug)]
pub enum ConfigError {
    Io(std::io::Error),
    TomlParse(toml::de::Error),
    NoContextForDirectory { cwd: String },
    ProfileNotFound { name: String },
    UnknownHomeConfig,
    ProfilesDirectory { path: String, source: std::io::Error },
    LandlockConfig(LandlockConfigError),
}

/// An environment variable set by a profile.
#[derive(Debug, Clone, Default, PartialEq, Eq, PartialOrd, Ord)]
pub struct Env {
    pub name: String,
    pub literal: String,
}

impl View for Env {
    type V = (Seq<char>, Seq<char>);

    open spec fn view(&self) -> (Seq<char>, Seq<char>) {
        (self.name@, self.literal@)
    }
}

/// Order of environment entries: by name, then by value (the order of the
/// derived `Ord` over two strings).
pub open spec fn env_order(a: (Seq<char>, Seq<char>), b: (Seq<char>, Seq<char>)) -> int {
    if char_seq_order(a.0, b.0) != 0 {
        char_seq_order(a.0, b.0)
    } else {
        char_seq_order(a.1, b.1)
    }
}

/// The views of a sequence of environment entries.
pub open spec fn envs_view(v: Seq<Env>) -> Seq<(Seq<char>, Seq<char>)> {
    v.map_values(|e: Env| e@)
}

/// Strictly increasing: the form a set of environment entries is kept in.
pub open spec fn envs_sorted(s: Seq<(Seq<char>, Seq<char>)>) -> bool {
    forall|i: int, j: int| 0 <= i < j < s.len() ==> env_order(s[i], s[j]) < 0
}

/// The order of environment entries is antisymmetric.
pub proof fn lemma_env_order(a: (Seq<char>, Seq<char>), b: (Seq<char>, Seq<char>))
    ensures
        env_order(a, b) == -env_order(b, a),
        (env_order(a, b) == 0) == (a == b),
{
    lemma_char_seq_order_antisym(a.0, b.0);
    lemma_char_seq_order_antisym(a.1, b.1);
}

/// The order of environment entries is transitive.
pub proof fn lemma_env_order_trans(
    a: (Seq<char>, Seq<char>),
    b: (Seq<char>, Seq<char>),
    c: (Seq<char>, Seq<char>),
)
    requires
        env_order(a, b) < 0,
        env_order(b, c) < 0,
    ensures
        env_order(a, c) < 0,
{
    lemma_char_seq_order_antisym(a.0, b.0);
    lemma_char_seq_order_antisym(b.0, c.0);
    lemma_char_seq_order_antisym(a.0, c.0);
    lemma_char_seq_order_antisym(a.1, b.1);
    lemma_char_seq_order_antisym(b.1, c.1);
    if char_seq_order(a.0, b.0) <= 0 && char_seq_order(b.0, c.0) <= 0 {
        lemma_char_seq_order_trans(a.0, b.0, c.0);
    }
    if char_seq_order(a.0, b.0) == 0 && char_seq_order(b.0, c.0) == 0 {
        lemma_char_seq_order_trans(a.1, b.1, c.1);
    }
}

impl Env {
    /// A copy of this entry.
    pub fn duplicate(&self) -> (r: Env)
        ensures
            r@ == self@,
    {
        Env { name: self.name.clone(), literal: self.literal.clone() }
    }

    /// Compares two entries by name, then by value.
    pub fn compare(&self, other: &Env) -> (r: Order)
        ensures
            r.as_int() == env_order(self@, other@),
    {
        match compare_strings(&self.name, &other.name) {
            Order::Equal => compare_strings(&self.literal, &other.literal),
            o => o,
        }
    }
}

/// Adds an entry to a sorted set of entries, unless it is already there.
pub fn env_set_insert(set: &mut Vec<Env>, e: Env)
    requires
        envs_sorted(envs_view(old(set)@)),
    ensures
        envs_sorted(envs_view(final(set)@)),
        envs_view(final(set)@).to_set() == envs_view(old(set)@).to_set().insert(e@),
{
    let ghost sv = envs_view(set@);
    let mut k: usize = 0;
    while k < set.len() && matches!(set[k].compare(&e), Order::Less)
        invariant
            k <= set.len(),
            sv == envs_view(set@),
            forall|a: int| 0 <= a < k ==> env_order(#[trigger] sv[a], e@) < 0,
        decreases set.len() - k,
    {
        k = k + 1;
    }
    if k < set.len() {
        if matches!(set[k].compare(&e), Order::Equal) {
            proof {
                lemma_env_order(sv[k as int], e@);
                assert(sv[k as int] == e@);
                assert(sv.to_set().insert(e@) =~= sv.to_set());
            }
            return;
        }
    }
    let ghost e_view = e@;
    set.insert(k, e);
    proof {
        let nv = envs_view(set@);
        assert(nv =~= sv.take(k as int) + seq![e_view] + sv.skip(k as int));
        if k < sv.len() {
            lemma_env_order(sv[k as int], e_view);
            assert(env_order(e_view, sv[k as int]) < 0);
        }
        assert forall|i: int, j: int| 0 <= i < j < nv.len() implies env_order(nv[i], nv[j]) < 0 by {
            if j < k {
            } else if j == k {
            } else if i < k {
                assert(nv[j] == sv[j - 1]);
                if j - 1 > k {
                    lemma_env_order(sv[k as int], e_view);
                    lemma_env_order_trans(sv[i], sv[k as int], sv[j - 1]);
                }
                if j - 1 >= k {
                    lemma_env_order(sv[k as int], e_view);
                }
            } else if i == k {
                lemma_env_order(sv[k as int], e_view);
                if j - 1 > k {
                    lemma_env_order_trans(e_view, sv[k as int], sv[j - 1]);
                }
            } else {
                assert(nv[i] == sv[i - 1]);
                assert(nv[j] == sv[j - 1]);
            }
        }
        assert forall|x| nv.to_set().contains(x) <==> sv.to_set().insert(e_view).contains(x) by {
            if x == e_view {
                assert(nv[k as int] == e_view);
            }
            if sv.contains(x) {
                let i = choose|i: int| 0 <= i < sv.len() && sv[i] == x;
                assert(nv[if i < k { i } else { i + 1 }] == x);
            }
            if nv.contains(x) {
                let i = choose|i: int| 0 <= i < nv.len() && nv[i] == x;
                if i != k {
                    assert(sv[if i < k { i } else { i - 1 }] == x);
                }
            }
        }
        assert(nv.to_set() =~= sv.to_set().insert(e_view));
    }
}

/// A profile: where it applies, the variables it sets, and whether it has an
/// isolated workspace.
#[derive(Debug, PartialEq, Eq)]
pub struct Profile {
    pub contexts: ContextSet,
    pub env_vars: Vec<Env>,
    pub workspace: bool,
}

impl Default for Profile {
    fn default() -> (r: Self)
        ensures
            r.contexts.wf(),
            r.contexts@ == Seq::<Option<Seq<char>>>::empty(),
            r.env_vars@ == Seq::<Env>::empty(),
            !r.workspace,
    {
        Profile { contexts: ContextSet::new(), env_vars: Vec::new(), workspace: false }
    }
}

impl Profile {
    /// The profile is well formed: its contexts form a set and its variables
    /// are sorted without repetition.
    pub open spec fn wf(&self) -> bool {
        &&& self.contexts.wf()
        &&& envs_sorted(envs_view(self.env_vars@))
    }
}

/// Unicode `White_Space` characters (`char::is_whitespace`).
pub open spec fn is_white_space(c: char) -> bool {
    ||| ('\u{9}' <= c && c <= '\u{d}')
    ||| c == ' '
    ||| c == '\u{85}'
    ||| c == '\u{a0}'
    ||| c == '\u{1680}'
    ||| ('\u{2000}' <= c && c <= '\u{200a}')
    ||| c == '\u{2028}'
    ||| c == '\u{2029}'
    ||| c == '\u{202f}'
    ||| c == '\u{205f}'
    ||| c == '\u{3000}'
}

/// `char::is_whitespace`.
pub fn is_whitespace(c: char) -> (r: bool)
    ensures
        r == is_white_space(c),
{
    ('\u{9}' <= c && c <= '\u{d}') || c == ' ' || c == '\u{85}' || c == '\u{a0}' || c == '\u{1680}'
        || ('\u{2000}' <= c && c <= '\u{200a}') || c == '\u{2028}' || c == '\u{2029}' || c
        == '\u{202f}' || c == '\u{205f}' || c == '\u{3000}'
}

/// Characters with a special meaning on a shell command line.
pub open spec fn is_cli_special(c: char) -> bool {
    c == '$' || c == '*' || c == '|' || c == '&' || c == ';' || c == '<' || c == '>' || c == '`'
}

/// A valid profile name is a single path component (not empty, without `/`,
/// neither `.` nor `..`), does not start with `.`, `-` or `~`, neither starts
/// nor ends with whitespace, and holds no shell special character.
pub open spec fn profile_name_valid(s: Seq<char>) -> bool {
    &&& s.len() > 0
    &&& forall|i: int| 0 <= i < s.len() ==> s[i] != '/'
    &&& s != seq!['.']
    &&& s != seq!['.', '.']
    &&& s[0] != '.'
    &&& s[0] != '-'
    &&& s[0] != '~'
    &&& !is_white_space(s[0])
    &&& !is_white_space(s.last())
    &&& forall|i: int| 0 <= i < s.len() ==> !is_cli_special(#[trigger] s[i])
}

/// An ASCII letter or digit.
pub open spec fn is_ascii_alnum(c: char) -> bool {
    ('a' <= c && c <= 'z') || ('A' <= c && c <= 'Z') || ('0' <= c && c <= '9')
}

/// Law: every name made only of ASCII letters and digits is a valid profile
/// name (letters and digits never start a hidden, option-like or home path,
/// are not whitespace, not a separator and not special to a shell); so is
/// such a name with `.`, `-`, `_` or `~` inside it after the first character.
pub proof fn lemma_plain_names_valid(s: Seq<char>)
    requires
        s.len() > 0,
        is_ascii_alnum(s[0]),
        forall|i: int| 0 <= i < s.len() ==> is_ascii_alnum(#[trigger] s[i]) || s[i] == '.' || s[i] == '-' || s[i]
            == '_' || s[i] == '~',
        is_ascii_alnum(s.last()),
    ensures
        profile_name_valid(s),
{
    assert(s != seq!['.']) by {
        if s == seq!['.'] {
            assert(s[0] == '.');
        }
    }
    assert(s != seq!['.', '.']) by {
        if s == seq!['.', '.'] {
            assert(s[0] == '.');
        }
    }
}

/// Profile names should be trusted, but some basic sanity checks avoid
/// usability issues.
pub fn is_profile_name_valid(name: &str) -> (r: bool)
    ensures
        r == profile_name_valid(name@),
        (name@.len() > 0 && forall|i: int| 0 <= i < name@.len() ==> is_ascii_alnum(#[trigger] name@[i])) ==> r,
{
    proof {
        if name@.len() > 0 && forall|i: int| 0 <= i < name@.len() ==> is_ascii_alnum(#[trigger] name@[i]) {
            assert(is_ascii_alnum(name@[name@.len() - 1]));
            lemma_plain_names_valid(name@);
        }
    }
    let v = crate::text::chars_of(name);
    let n = v.len();
    if n == 0 {
        return false;
    }
    let mut i: usize = 0;
    while i < n
        invariant
            n == v.len(),
            v@ == name@,
            i <= n,
            forall|k: int| 0 <= k < i ==> v@[k] != '/' && !is_cli_special(v@[k]),
        decreases n - i,
    {
        let c = v[i];
        if c == '/' || c == '$' || c == '*' || c == '|' || c == '&' || c == ';' || c == '<' || c
            == '>' || c == '`' {
            return false;
        }
        i = i + 1;
    }
    if v[0] == '.' || v[0] == '-' || v[0] == '~' {
        return false;
    }
    assert(name@ != seq!['.'] && name@ != seq!['.', '.']);
    !is_whitespace(v[0]) && !is_whitespace(v[n - 1])
}

/// The context at position `j` applies to `path`.
pub open spec fn matches_at(ctx: Seq<Option<Seq<char>>>, path: Seq<char>, j: int) -> bool {
    match ctx[j] {
        Some(p) => path_starts_with(path, p),
        None => false,
    }
}

/// Position of the first context (in set order) under which `path` lies.
pub open spec fn first_match(ctx: Seq<Option<Seq<char>>>, path: Seq<char>) -> Option<int>
    decreases ctx.len(),
{
    if ctx.len() == 0 {
        None
    } else if matches_at(ctx, path, 0) {
        Some(0)
    } else {
        match first_match(ctx.drop_first(), path) {
            Some(j) => Some(j + 1),
            None => None,
        }
    }
}

/// The first matching context comes before any other matching one.
pub proof fn lemma_first_match(ctx: Seq<Option<Seq<char>>>, path: Seq<char>, j: int)
    requires
        0 <= j <= ctx.len(),
        forall|q: int| 0 <= q < j ==> !matches_at(ctx, path, q),
        j < ctx.len() ==> matches_at(ctx, path, j),
    ensures
        first_match(ctx, path) == (if j < ctx.len() { Some(j) } else { None::<int> }),
    decreases j,
{
    if j > 0 {
        let d = ctx.drop_first();
        assert forall|q: int| 0 <= q < j - 1 implies !matches_at(d, path, q) by {
            assert(d[q] == ctx[q + 1]);
            assert(!matches_at(ctx, path, q + 1));
        }
        if j < ctx.len() {
            assert(d[j - 1] == ctx[j]);
        }
        assert(!matches_at(ctx, path, 0));
        lemma_first_match(d, path, j - 1);
    }
}

/// Whether `f` may return `Ok(c)` for the profile name `name`.
pub open spec fn load_ok<C, F: Fn(&str) -> Result<C, ConfigError>>(f: F, name: Seq<char>, c: C) -> bool {
    exists|s: &str| s@ == name && call_ensures(f, (s,), Ok(c))
}

/// Whether `f` may fail with `e` for the profile name `name`.
pub open spec fn load_err<C, F: Fn(&str) -> Result<C, ConfigError>>(f: F, name: Seq<char>, e: ConfigError) -> bool {
    exists|s: &str| s@ == name && call_ensures(f, (s,), Err(e))
}

/// `f` may succeed for each of the first `k` profiles listed in `idx`.
pub open spec fn all_loaded<C, F: Fn(&str) -> Result<C, ConfigError>>(
    f: F,
    names: Seq<Seq<char>>,
    idx: Seq<int>,
    k: int,
) -> bool {
    forall|l: int| #![trigger idx[l]] 0 <= l < k ==> load_succeeds::<C, F>(f, names[idx[l]])
}

/// `f` may succeed for `name`.
pub open spec fn load_succeeds<C, F: Fn(&str) -> Result<C, ConfigError>>(f: F, name: Seq<char>) -> bool {
    exists|c: C| #[trigger] load_ok(f, name, c)
}

/// Some resolved profile of `v` has the name `name`.
pub open spec fn name_listed<'a, C>(v: Seq<ResolvedProfile<'a, C>>, name: Seq<char>) -> bool {
    exists|a: int| 0 <= a < v.len() && #[trigger] v[a].name@ == name
}

/// `f` never fails.
pub open spec fn never_fails<C, F: Fn(&str) -> Result<C, ConfigError>>(f: F) -> bool {
    forall|s: &str, x: Result<C, ConfigError>| call_ensures(f, (s,), x) ==> x is Ok
}

/// Island's configuration: the profiles found in the profiles directory, by name.
pub struct IslandConfig {
    profiles: Vec<(String, Profile)>,
    profiles_dir: String,
}

/// Strictly increasing names.
pub open spec fn names_sorted(s: Seq<Seq<char>>) -> bool {
    forall|i: int, j: int| 0 <= i < j < s.len() ==> char_seq_order(s[i], s[j]) < 0
}

/// Inserting a name at its sorted position among names it is not part of
/// keeps the names sorted and adds it to their set.
pub proof fn lemma_sorted_names_insert(nv: Seq<Seq<char>>, name: Seq<char>, k: int)
    requires
        names_sorted(nv),
        0 <= k <= nv.len(),
        forall|a: int| 0 <= a < k ==> char_seq_order(#[trigger] nv[a], name) < 0,
        k < nv.len() ==> char_seq_order(nv[k], name) > 0,
    ensures
        names_sorted(nv.take(k) + seq![name] + nv.skip(k)),
        !nv.contains(name),
        (nv.take(k) + seq![name] + nv.skip(k)).to_set() == nv.to_set().insert(name),
{
    let fv = nv.take(k) + seq![name] + nv.skip(k);
    if k < nv.len() {
        lemma_char_seq_order_antisym(nv[k], name);
    }
    assert forall|i: int, j: int| 0 <= i < j < fv.len() implies char_seq_order(fv[i], fv[j]) < 0 by {
        if j < k {
            assert(fv[i] == nv[i] && fv[j] == nv[j]);
        } else if j == k {
            assert(fv[i] == nv[i]);
        } else if i < k {
            assert(fv[i] == nv[i]);
            assert(fv[j] == nv[j - 1]);
            lemma_char_seq_order_trans(nv[i], name, nv[k]);
            if j - 1 > k {
                lemma_char_seq_order_trans(nv[i], nv[k], nv[j - 1]);
            }
        } else if i == k {
            assert(fv[j] == nv[j - 1]);
            if j - 1 > k {
                lemma_char_seq_order_trans(name, nv[k], nv[j - 1]);
            }
        } else {
            assert(fv[i] == nv[i - 1]);
            assert(fv[j] == nv[j - 1]);
        }
    }
    assert(!nv.contains(name)) by {
        if nv.contains(name) {
            let i = choose|i: int| 0 <= i < nv.len() && nv[i] == name;
            lemma_char_seq_order_antisym(nv[i], name);
            if i > k {
                lemma_char_seq_order_trans(name, nv[k], nv[i]);
            }
        }
    }
    assert forall|x| fv.to_set().contains(x) <==> nv.to_set().insert(name).contains(x) by {
        if x == name {
            assert(fv[k] == name);
        }
        if nv.contains(x) {
            let i = choose|i: int| 0 <= i < nv.len() && nv[i] == x;
            assert(fv[if i < k { i } else { i + 1 }] == x);
        }
        if fv.contains(x) {
            let i = choose|i: int| 0 <= i < fv.len() && fv[i] == x;
            if i != k {
                assert(nv[if i < k { i } else { i - 1 }] == x);
            }
        }
    }
    assert(fv.to_set() =~= nv.to_set().insert(name));
}

/// Positions, in name order, of the profiles with a context under which `path` lies.
pub open spec fn matching_indices(ctxs: Seq<Seq<Option<Seq<char>>>>, path: Seq<char>) -> Seq<int>
    decreases ctxs.len(),
{
    if ctxs.len() == 0 {
        Seq::empty()
    } else {
        let rest = matching_indices(ctxs.drop_last(), path);
        if first_match(ctxs.last(), path) is Some {
            rest.push(ctxs.len() - 1)
        } else {
            rest
        }
    }
}

/// The indices of the matching profiles are increasing and all match.
pub proof fn lemma_matching_indices(ctxs: Seq<Seq<Option<Seq<char>>>>, path: Seq<char>)
    ensures
        forall|k: int| 0 <= k < matching_indices(ctxs, path).len() ==> 0 <= #[trigger] matching_indices(ctxs, path)[k] < ctxs.len()
            && first_match(ctxs[matching_indices(ctxs, path)[k]], path) is Some,
        forall|k: int, l: int| 0 <= k < l < matching_indices(ctxs, path).len() ==> matching_indices(ctxs, path)[k] < matching_indices(ctxs, path)[l],
        forall|m: int| 0 <= m < ctxs.len() && first_match(ctxs[m], path) is Some ==> matching_indices(ctxs, path).contains(m),
    decreases ctxs.len(),
{
    if ctxs.len() > 0 {
        let d = ctxs.drop_last();
        lemma_matching_indices(d, path);
        let rest = matching_indices(d, path);
        assert(matching_indices(ctxs, path) == (if first_match(ctxs.last(), path) is Some {
            rest.push(ctxs.len() - 1)
        } else {
            rest
        }));
        assert forall|m: int| 0 <= m < ctxs.len() && first_match(ctxs[m], path) is Some implies matching_indices(ctxs, path).contains(m) by {
            if m < ctxs.len() - 1 {
                assert(d[m] == ctxs[m]);
                assert(first_match(d[m], path) is Some);
                assert(rest.contains(m));
                let k = choose|k: int| 0 <= k < rest.len() && rest[k] == m;
                assert(matching_indices(ctxs, path)[k] == m);
            } else {
                assert(matching_indices(ctxs, path)[rest.len() as int] == m);
            }
        }
        assert forall|k: int| 0 <= k < matching_indices(ctxs, path).len() implies 0 <= #[trigger] matching_indices(ctxs, path)[k] < ctxs.len()
            && first_match(ctxs[matching_indices(ctxs, path)[k]], path) is Some by {
            if k < rest.len() {
                assert(matching_indices(ctxs, path)[k] == rest[k]);
                assert(d[rest[k]] == ctxs[rest[k]]);
            }
        }
    }
}

impl IslandConfig {
    /// The profile names, in order.
    pub closed spec fn names(&self) -> Seq<Seq<char>> {
        self.profiles@.map_values(|p: (String, Profile)| p.0@)
    }

    /// The profile at position `i` in name order.
    pub closed spec fn profile_at(&self, i: int) -> Profile {
        self.profiles@[i].1
    }

    /// The contexts of each profile, in name order.
    pub closed spec fn contexts(&self) -> Seq<Seq<Option<Seq<char>>>> {
        self.profiles@.map_values(|p: (String, Profile)| p.1.contexts@)
    }

    /// The profiles directory.
    pub closed spec fn dir(&self) -> Seq<char> {
        self.profiles_dir@
    }

    /// Names are sorted without repetition and every profile is well formed.
    pub closed spec fn wf(&self) -> bool {
        &&& names_sorted(self.names())
        &&& forall|i: int| 0 <= i < self.profiles@.len() ==> (#[trigger] self.profiles@[i]).1.wf()
    }

    /// How the views of a configuration relate to each other.
    pub proof fn lemma_view(&self)
        ensures
            self.names().len() == self.contexts().len(),
            forall|i: int| 0 <= i < self.names().len() ==> #[trigger] self.contexts()[i] == self.profile_at(i).contexts@,
            self.wf() ==> forall|i: int| 0 <= i < self.names().len() ==> (#[trigger] self.profile_at(i)).wf(),
            self.wf() ==> names_sorted(self.names()),
    {
    }

    /// A configuration without profiles, whose profiles live in `profiles_dir`.
    pub fn with_profiles_dir(profiles_dir: String) -> (r: Self)
        ensures
            r.wf(),
            r.names() == Seq::<Seq<char>>::empty(),
            r.dir() == profiles_dir@,
    {
        let r = IslandConfig { profiles: Vec::new(), profiles_dir };
        assert(r.names() =~= Seq::<Seq<char>>::empty());
        r
    }

    /// The profiles directory.
    pub fn profiles_dir(&self) -> (r: &str)
        ensures
            r@ == self.dir(),
    {
        self.profiles_dir.as_str()
    }

    /// Number of profiles.
    pub fn len(&self) -> (n: usize)
        ensures
            n == self.names().len(),
    {
        self.profiles.len()
    }

    /// Adds a profile, replacing a profile of the same name.
    pub fn insert_profile(&mut self, name: String, profile: Profile)
        requires
            old(self).wf(),
            profile.wf(),
        ensures
            final(self).wf(),
            final(self).dir() == old(self).dir(),
            old(self).names().contains(name@) ==> final(self).names() == old(self).names(),
            !old(self).names().contains(name@) ==> final(self).names().len() == old(self).names().len() + 1,
            final(self).names().to_set() == old(self).names().to_set().insert(name@),
            forall|i: int| 0 <= i < final(self).names().len() ==> (#[trigger] final(self).names()[i] == name@
                ==> final(self).profile_at(i) == profile),
            forall|i: int| 0 <= i < final(self).names().len() && #[trigger] final(self).names()[i] != name@
                ==> exists|j: int| 0 <= j < old(self).names().len() && old(self).names()[j] == final(self).names()[i]
                    && old(self).profile_at(j) == final(self).profile_at(i),
    {
        let ghost nv = self.names();
        let mut k: usize = 0;
        while k < self.profiles.len() && matches!(compare_strings(&self.profiles[k].0, &name), Order::Less)
            invariant
                k <= self.profiles.len(),
                nv == self.names(),
                forall|a: int| 0 <= a < k ==> char_seq_order(#[trigger] nv[a], name@) < 0,
            decreases self.profiles.len() - k,
        {
            assert(nv[k as int] == self.profiles@[k as int].0@);
            k = k + 1;
        }
        let ghost old_ps = self.profiles@;
        let ghost name_v = name@;
        if k < self.profiles.len() {
            assert(nv[k as int] == self.profiles@[k as int].0@);
            if strings_eq(&self.profiles[k].0, &name) {
                self.profiles.set(k, (name, profile));
                proof {
                    assert(self.names() =~= nv);
                    assert forall|i: int| 0 <= i < self.names().len() && #[trigger] self.names()[i] != name_v
                        implies exists|j: int| 0 <= j < old(self).names().len() && old(self).names()[j] == self.names()[i]
                        && old(self).profile_at(j) == self.profile_at(i) by {
                        assert(i != k);
                        assert(old(self).names()[i] == self.names()[i]);
                        assert(old(self).profile_at(i) == self.profile_at(i));
                    }
                    assert forall|i: int| 0 <= i < self.names().len() implies (#[trigger] self.names()[i] == name_v
                        ==> self.profile_at(i) == profile) by {
                        if i != k && self.names()[i] == name_v {
                            lemma_char_seq_order_antisym(nv[i], nv[k as int]);
                            if i < k {
                                assert(char_seq_order(nv[i], nv[k as int]) < 0);
                            } else {
                                assert(char_seq_order(nv[k as int], nv[i]) < 0);
                            }
                        }
                    }
                    assert(nv.contains(name_v)) by {
                        assert(nv[k as int] == name_v);
                    }
                    assert(nv.to_set().insert(name_v) =~= nv.to_set());
                }
                return;
            }
        }
        proof {
            if k < nv.len() {
                lemma_char_seq_order_antisym(nv[k as int], name_v);
            }
        }
        self.profiles.insert(k, (name, profile));
        proof {
            let fv = self.names();
            assert(fv =~= nv.take(k as int) + seq![name_v] + nv.skip(k as int));
            lemma_sorted_names_insert(nv, name_v, k as int);
            assert forall|i: int| 0 <= i < fv.len() implies (#[trigger] fv[i] == name_v ==> self.profile_at(i) == profile) by {
                if i != k && fv[i] == name_v {
                    assert(nv[if i < k { i } else { i - 1 }] == name_v);
                }
            }
            assert forall|i: int| 0 <= i < self.names().len() && #[trigger] self.names()[i] != name_v
                implies exists|j: int| 0 <= j < old(self).names().len() && old(self).names()[j] == self.names()[i]
                    && old(self).profile_at(j) == self.profile_at(i) by {
                let j = if i < k { i } else { i - 1 };
                assert(self.profiles@[i] == old_ps[j]);
                assert(old(self).names()[j] == self.names()[i]);
                assert(old(self).profile_at(j) == self.profile_at(i));
            }
            assert forall|i: int| 0 <= i < self.profiles@.len() implies (#[trigger] self.profiles@[i]).1.wf() by {
                if i != k {
                    assert(self.profiles@[i] == old_ps[if i < k { i } else { i - 1 }]);
                }
            }
        }
    }

    /// The profile names, in order.
    pub fn profile_names(&self) -> (r: Vec<String>)
        ensures
            r@.map_values(|s: String| s@) == self.names(),
    {
        let mut r: Vec<String> = Vec::new();
        let mut i: usize = 0;
        while i < self.profiles.len()
            invariant
                i <= self.profiles.len(),
                r@.map_values(|s: String| s@) == self.names().take(i as int),
            decreases self.profiles.len() - i,
        {
            let ghost before = r@;
            let x = self.profiles[i].0.clone();
            assert(x@ == self.names()[i as int]);
            r.push(x);
            assert(r@ == before.push(x));
            assert(r@.map_values(|s: String| s@) =~= before.map_values(|s: String| s@).push(x@));
            i = i + 1;
            assert(r@.map_values(|s: String| s@) =~= self.names().take(i as int));
        }
        assert(self.names().take(i as int) =~= self.names());
        r
    }

    /// `r` was resolved from profile `m`, by way of the first of its contexts
    /// under `path`, with a configuration that `f` may give for it.
    pub open spec fn resolved_by_path<'a, C, F: Fn(&str) -> Result<C, ConfigError>>(
        &self,
        r: ResolvedProfile<'a, C>,
        path: Seq<char>,
        f: F,
        m: int,
    ) -> bool {
        &&& 0 <= m < self.names().len()
        &&& r.name@ == self.names()[m]
        &&& first_match(self.contexts()[m], path) is Some
        &&& r.context is Some
        &&& r.context->0@ == self.contexts()[m][first_match(self.contexts()[m], path)->0]
        &&& *r.profile == self.profile_at(m)
        &&& *r.env_vars == self.profile_at(m).env_vars
        &&& r.workspace == self.profile_at(m).workspace
        &&& load_ok(f, r.name@, r.config)
    }

    /// `r` was resolved from one of the first `bound` profiles.
    pub open spec fn resolved_before<'a, C, F: Fn(&str) -> Result<C, ConfigError>>(
        &self,
        r: ResolvedProfile<'a, C>,
        path: Seq<char>,
        f: F,
        bound: int,
    ) -> bool {
        exists|m: int| 0 <= m < bound && #[trigger] self.resolved_by_path(r, path, f, m)
    }

    /// The first context of profile `i` under `path`, if any.
    fn find_context(&self, i: usize, path: &str) -> (r: Option<&ContextEntry>)
        requires
            i < self.names().len(),
        ensures
            match r {
                Some(c) => first_match(self.contexts()[i as int], path@) is Some && c@
                    == self.contexts()[i as int][first_match(self.contexts()[i as int], path@)->0],
                None => first_match(self.contexts()[i as int], path@) is None,
            },
    {
        let contexts = &self.profiles[i].1.contexts;
        let ghost ctx = contexts@;
        assert(ctx == self.contexts()[i as int]);
        let n = contexts.len();
        let mut j: usize = 0;
        while j < n
            invariant
                n == ctx.len(),
                ctx == contexts@,
                ctx == self.contexts()[i as int],
                j <= n,
                forall|q: int| 0 <= q < j ==> !matches_at(ctx, path@, q),
            decreases n - j,
        {
            let e = contexts.get(j);
            match &e.when_beneath {
                Some(p) => {
                    if starts_with(path, p) {
                        proof {
                            lemma_first_match(ctx, path@, j as int);
                        }
                        return Some(e);
                    }
                },
                None => {},
            }
            j = j + 1;
        }
        proof {
            lemma_first_match(ctx, path@, n as int);
        }
        None
    }

    /// Resolves all profiles with a context under `canonicalized_path` (which
    /// should already be canonical), each tied to its first matching context.
    ///
    /// `load_config` is called for each matching profile, in name order, to
    /// load its configuration; the first failure is returned.  The resolved
    /// profiles are sorted broadest context first, then by name.
    pub fn resolve_profiles_by_path<'a, C, F>(&'a self, canonicalized_path: &str, load_config: F) -> (r:
        Result<Vec<ResolvedProfile<'a, C>>, ConfigError>) where F: Fn(&str) -> Result<C, ConfigError>
        requires
            self.wf(),
            forall|s: &str| call_requires(load_config, (s,)),
        ensures
            ({
                let mi = matching_indices(self.contexts(), canonicalized_path@);
                match r {
                    Ok(v) => {
                        &&& v.len() > 0
                        &&& v.len() == mi.len()
                        &&& resolved_sorted(resolved_view(v@))
                        &&& forall|a: int| 0 <= a < v.len() ==> #[trigger] self.resolved_before(v@[a], canonicalized_path@, load_config, self.names().len() as int)
                        &&& forall|k: int| #![trigger mi[k]] 0 <= k < mi.len() ==> name_listed(v@, self.names()[mi[k]])
                        &&& forall|a: int, b: int| 0 <= a < v.len() && 0 <= b < v.len() && a != b ==> v@[a].name@ != v@[b].name@
                    },
                    Err(e) => {
                        ||| (mi.len() == 0 && (e matches ConfigError::NoContextForDirectory { cwd } && cwd@ == canonicalized_path@))
                        ||| exists|k: int| 0 <= k < mi.len()
                                && all_loaded(load_config, self.names(), mi, k)
                                && load_err(load_config, self.names()[mi[k]], e)
                    },
                }
            }),
            matching_indices(self.contexts(), canonicalized_path@).len() > 0 && never_fails(load_config) ==> r is Ok,
    {
        let ghost path = canonicalized_path@;
        let ghost ctxs = self.contexts();
        let ghost names = self.names();
        proof {
            self.lemma_view();
        }
        let mut v: Vec<ResolvedProfile<'a, C>> = Vec::new();
        let n = self.profiles.len();
        let mut i: usize = 0;
        proof {
            assert(ctxs.take(0) =~= Seq::<Seq<Option<Seq<char>>>>::empty());
        }
        while i < n
            invariant
                n == names.len(),
                self.wf(),
                ctxs == self.contexts(),
                names == self.names(),
                names_sorted(names),
                ctxs.len() == n,
                path == canonicalized_path@,
                forall|s: &str| call_requires(load_config, (s,)),
                i <= n,
                v.len() == matching_indices(ctxs.take(i as int), path).len(),
                resolved_sorted(resolved_view(v@)),
                forall|a: int| 0 <= a < v.len() ==> #[trigger] self.resolved_before(v@[a], path, load_config, i as int),
                forall|k: int| #![trigger matching_indices(ctxs.take(i as int), path)[k]] 0 <= k < matching_indices(ctxs.take(i as int), path).len() ==> name_listed(v@, names[matching_indices(ctxs.take(i as int), path)[k]]),
                forall|a: int, b: int| 0 <= a < v.len() && 0 <= b < v.len() && a != b ==> v@[a].name@ != v@[b].name@,
                all_loaded(load_config, names, matching_indices(ctxs.take(i as int), path), matching_indices(ctxs.take(i as int), path).len() as int),
                matching_indices(ctxs.take(i as int), path) == matching_indices(ctxs, path).take(matching_indices(ctxs.take(i as int), path).len() as int),
                matching_indices(ctxs.take(i as int), path).len() <= matching_indices(ctxs, path).len(),
            decreases n - i,
        {
            proof {
                assert(ctxs.take(i + 1).drop_last() =~= ctxs.take(i as int));
                assert(ctxs.take(i + 1).last() == ctxs[i as int]);
                lemma_matching_prefix(ctxs, path, i as int);
            }
            match self.find_context(i, canonicalized_path) {
                Some(ctx) => {
                    let name: &'a str = self.profiles[i].0.as_str();
                    assert(name@ == names[i as int]);
                    let prof: &'a Profile = &self.profiles[i].1;
                    match ResolvedProfile::new(name, prof, &load_config, Some(ctx)) {
                        Ok(item) => {
                            proof {
                                assert(self.resolved_by_path(item, path, load_config, i as int));
                                assert forall|a: int| 0 <= a < v.len() implies v@[a].name@ != item.name@ by {
                                    assert(self.resolved_before(v@[a], path, load_config, i as int));
                                    let m = choose|m: int| 0 <= m < i && #[trigger] self.resolved_by_path(v@[a], path, load_config, m);
                                    assert(char_seq_order(names[m], names[i as int]) < 0);
                                    lemma_char_seq_order_antisym(names[m], names[i as int]);
                                }
                            }
                            let ghost old_v = v@;
                            let ghost it = item;
                            insert_resolved(&mut v, item);
                            proof {
                                let kk = choose|kk: int| 0 <= kk <= old_v.len() && v@ == old_v.insert(kk, it);
                                let mp = matching_indices(ctxs.take(i as int), path);
                                let mi = matching_indices(ctxs.take(i + 1), path);
                                assert(mi == mp.push(i as int));
                                assert forall|a: int| 0 <= a < v.len() implies #[trigger] self.resolved_before(v@[a], path, load_config, i + 1) by {
                                    if a < kk {
                                        assert(v@[a] == old_v[a]);
                                        assert(self.resolved_before(old_v[a], path, load_config, i as int));
                                    } else if a == kk {
                                        assert(v@[a] == it);
                                        assert(self.resolved_by_path(v@[a], path, load_config, i as int));
                                    } else {
                                        assert(v@[a] == old_v[a - 1]);
                                        assert(self.resolved_before(old_v[a - 1], path, load_config, i as int));
                                    }
                                }
                                assert forall|a: int, b: int| 0 <= a < v.len() && 0 <= b < v.len() && a != b implies v@[a].name@ != v@[b].name@ by {
                                    let a0 = if a < kk { a } else { a - 1 };
                                    let b0 = if b < kk { b } else { b - 1 };
                                    if a != kk && b != kk {
                                        assert(v@[a] == old_v[a0]);
                                        assert(v@[b] == old_v[b0]);
                                    } else if a == kk {
                                        assert(v@[b] == old_v[b0]);
                                    } else {
                                        assert(v@[a] == old_v[a0]);
                                    }
                                }
                                assert forall|k: int| #![trigger mi[k]] 0 <= k < mi.len() implies load_succeeds::<C, F>(load_config, names[mi[k]]) by {
                                    if k == mi.len() - 1 {
                                        assert(load_ok(load_config, names[mi[k]], it.config));
                                    } else {
                                        assert(mi[k] == mp[k]);
                                    }
                                }
                                assert(all_loaded(load_config, names, mi, mi.len() as int));
                                assert forall|k: int| #![trigger mi[k]] 0 <= k < mi.len() implies name_listed(v@, names[mi[k]]) by {
                                    if k == mi.len() - 1 {
                                        assert(v@[kk] == it);
                                        assert(v@[kk].name@ == names[mi[k]]);
                                    } else {
                                        assert(mi[k] == mp[k]);
                                        assert(name_listed(old_v, names[mp[k]]));
                                        let a = choose|a: int| 0 <= a < old_v.len() && #[trigger] old_v[a].name@ == names[mp[k]];
                                        let a1 = if a < kk { a } else { a + 1 };
                                        assert(v@[a1] == old_v[a]);
                                    }
                                }
                                lemma_next_match(ctxs, path, i as int);
                            }
                        },
                        Err(e) => {
                            proof {
                                let mi = matching_indices(ctxs, path);
                                let k = matching_indices(ctxs.take(i as int), path).len() as int;
                                lemma_next_match(ctxs, path, i as int);
                                assert(load_err(load_config, names[mi[k]], e));
                                assert forall|l: int| #![trigger mi[l]] 0 <= l < k implies load_succeeds::<C, F>(load_config, self.names()[mi[l]]) by {
                                    assert(mi[l] == matching_indices(ctxs.take(i as int), path)[l]);
                                }
                                assert(0 <= k < mi.len());
                                assert(all_loaded(load_config, self.names(), mi, k));
                                assert(load_err(load_config, self.names()[mi[k]], e));
                                if never_fails(load_config) {
                                    assert(call_ensures(load_config, (name,), Err::<C, ConfigError>(e)));
                                }
                            }
                            return Err(e);
                        },
                    }
                },
                None => {
                    proof {
                        assert forall|a: int| 0 <= a < v.len() implies #[trigger] self.resolved_before(v@[a], path, load_config, i + 1) by {
                            assert(self.resolved_before(v@[a], path, load_config, i as int));
                        }
                        assert(matching_indices(ctxs.take(i + 1), path) == matching_indices(ctxs.take(i as int), path));
                    }
                },
            }
            i = i + 1;
        }
        proof {
            assert(ctxs.take(n as int) =~= ctxs);
            assert(matching_indices(ctxs.take(n as int), path) == matching_indices(ctxs, path));
            assert(matching_indices(ctxs, path).take(v.len() as int) =~= matching_indices(ctxs, path));
            assert forall|a: int| 0 <= a < v.len() implies #[trigger] self.resolved_before(v@[a], path, load_config, self.names().len() as int) by {
                assert(self.resolved_before(v@[a], path, load_config, n as int));
            }
        }
        if v.len() == 0 {
            return Err(ConfigError::NoContextForDirectory { cwd: canonicalized_path.to_string() });
        }
        Ok(v)
    }
}

impl IslandConfig {
    /// `r` was resolved by name from the profile called `name`, with a
    /// configuration that `f` may give for it.
    pub open spec fn resolved_by_name<'a, C, F: Fn(&str) -> Result<C, ConfigError>>(
        &self,
        r: ResolvedProfile<'a, C>,
        name: Seq<char>,
        f: F,
    ) -> bool {
        exists|m: int|
            0 <= m < self.names().len() && #[trigger] self.names()[m] == name && r.name@ == name
                && r.context is None && *r.profile == self.profile_at(m) && *r.env_vars
                == self.profile_at(m).env_vars && r.workspace == self.profile_at(m).workspace
                && load_ok(f, name, r.config)
    }

    /// Position of the profile called `name`, if there is one.
    pub fn find_profile(&self, name: &str) -> (r: Option<usize>)
        ensures
            match r {
                Some(i) => i < self.names().len() && self.names()[i as int] == name@,
                None => !self.names().contains(name@),
            },
    {
        let mut i: usize = 0;
        while i < self.profiles.len()
            invariant
                i <= self.profiles.len(),
                forall|k: int| 0 <= k < i ==> self.names()[k] != name@,
            decreases self.profiles.len() - i,
        {
            if strings_eq(&self.profiles[i].0, name) {
                return Some(i);
            }
            i = i + 1;
        }
        None
    }

    /// The profile called `name`, if there is one.
    pub fn profile(&self, name: &str) -> (r: Option<&Profile>)
        ensures
            match r {
                Some(p) => exists|i: int| 0 <= i < self.names().len() && self.names()[i] == name@ && self.profile_at(i) == *p,
                None => !self.names().contains(name@),
            },
    {
        match self.find_profile(name) {
            Some(i) => {
                let p = &self.profiles[i].1;
                assert(self.profile_at(i as int) == *p);
                assert(self.names()[i as int] == name@);
                Some(p)
            },
            None => None,
        }
    }

    /// Resolves profiles by explicit names, in the given order, without
    /// context.  `load_config` is called for each name in turn; the first
    /// unknown name or failed load ends the resolution with its error.
    pub fn resolve_profiles_by_names<'a, C, F>(&'a self, profile_names: &[&str], load_config: F) -> (r:
        Result<Vec<ResolvedProfile<'a, C>>, ConfigError>) where F: Fn(&str) -> Result<C, ConfigError>
        requires
            self.wf(),
            forall|s: &str| call_requires(load_config, (s,)),
        ensures
            match r {
                Ok(v) => {
                    &&& v.len() == profile_names.len()
                    &&& forall|i: int| 0 <= i < v.len() ==> #[trigger] self.resolved_by_name(v@[i], profile_names@[i]@, load_config)
                },
                Err(e) => exists|k: int| 0 <= k < profile_names.len()
                    && (forall|l: int| #![trigger profile_names@[l]] 0 <= l < k ==> self.names().contains(profile_names@[l]@)
                        && load_succeeds::<C, F>(load_config, profile_names@[l]@))
                    && ((!self.names().contains(profile_names@[k]@) && (e matches ConfigError::ProfileNotFound { name } && name@ == profile_names@[k]@))
                        || (self.names().contains(profile_names@[k]@) && load_err(load_config, profile_names@[k]@, e))),
            },
            (forall|l: int| #![trigger profile_names@[l]] 0 <= l < profile_names.len() ==> self.names().contains(profile_names@[l]@))
                && never_fails(load_config) ==> r is Ok,
    {
        let mut v: Vec<ResolvedProfile<'a, C>> = Vec::new();
        let mut i: usize = 0;
        while i < profile_names.len()
            invariant
                self.wf(),
                forall|s: &str| call_requires(load_config, (s,)),
                i <= profile_names.len(),
                v.len() == i,
                forall|a: int| 0 <= a < i ==> #[trigger] self.resolved_by_name(v@[a], profile_names@[a]@, load_config),
                forall|l: int| #![trigger profile_names@[l]] 0 <= l < i ==> self.names().contains(profile_names@[l]@)
                    && load_succeeds::<C, F>(load_config, profile_names@[l]@),
            decreases profile_names.len() - i,
        {
            let wanted: &str = profile_names[i];
            match self.find_profile(wanted) {
                None => {
                    proof {
                        let k = i as int;
                        assert(forall|l: int| #![trigger profile_names@[l]] 0 <= l < k ==> self.names().contains(profile_names@[l]@)
                            && load_succeeds::<C, F>(load_config, profile_names@[l]@));
                    }
                    return Err(ConfigError::ProfileNotFound { name: wanted.to_string() });
                },
                Some(m) => {
                    let name: &'a str = self.profiles[m].0.as_str();
                    proof {
                        assert(self.names()[m as int] == self.profiles@[m as int].0@);
                        assert(self.names().contains(wanted@));
                    }
                    let prof: &'a Profile = &self.profiles[m].1;
                    match ResolvedProfile::new(name, prof, &load_config, None) {
                        Ok(item) => {
                            proof {
                                assert(load_ok(load_config, wanted@, item.config));
                                assert(load_succeeds::<C, F>(load_config, wanted@));
                                assert(wanted@ == profile_names@[i as int]@);
                                assert(self.resolved_by_name(item, wanted@, load_config));
                            }
                            let ghost old_v = v@;
                            v.push(item);
                            proof {
                                assert forall|a: int| 0 <= a < i + 1 implies #[trigger] self.resolved_by_name(v@[a], profile_names@[a]@, load_config) by {
                                    if a < i {
                                        assert(v@[a] == old_v[a]);
                                    }
                                }
                            }
                        },
                        Err(e) => {
                            proof {
                                assert(load_err(load_config, wanted@, e));
                                if never_fails(load_config) {
                                    assert(call_ensures(load_config, (name,), Err::<C, ConfigError>(e)));
                                }
                            }
                            return Err(e);
                        },
                    }
                },
            }
            i = i + 1;
        }
        Ok(v)
    }
}

/// The profiles matching a prefix of the configuration are a prefix of those
/// matching all of it.
proof fn lemma_matching_prefix(ctxs: Seq<Seq<Option<Seq<char>>>>, path: Seq<char>, i: int)
    requires
        0 <= i < ctxs.len(),
    ensures
        matching_indices(ctxs.take(i + 1), path) == (if first_match(ctxs[i], path) is Some {
            matching_indices(ctxs.take(i), path).push(i)
        } else {
            matching_indices(ctxs.take(i), path)
        }),
{
    assert(ctxs.take(i + 1).drop_last() =~= ctxs.take(i));
    assert(ctxs.take(i + 1).last() == ctxs[i]);
}

/// The next profile with a match is the next one in the matching list.
proof fn lemma_next_match(ctxs: Seq<Seq<Option<Seq<char>>>>, path: Seq<char>, i: int)
    requires
        0 <= i < ctxs.len(),
        first_match(ctxs[i], path) is Some,
        matching_indices(ctxs.take(i), path) == matching_indices(ctxs, path).take(matching_indices(ctxs.take(i), path).len() as int),
        matching_indices(ctxs.take(i), path).len() <= matching_indices(ctxs, path).len(),
    ensures
        matching_indices(ctxs.take(i), path).len() < matching_indices(ctxs, path).len(),
        matching_indices(ctxs, path)[matching_indices(ctxs.take(i), path).len() as int] == i,
        matching_indices(ctxs.take(i + 1), path) == matching_indices(ctxs, path).take(matching_indices(ctxs.take(i + 1), path).len() as int),
        matching_indices(ctxs.take(i + 1), path).len() <= matching_indices(ctxs, path).len(),
{
    lemma_matching_indices(ctxs, path);
    lemma_matching_prefix(ctxs, path, i);
    lemma_matching_take(ctxs, path, i);
    let mp = matching_indices(ctxs.take(i), path);
    let full = matching_indices(ctxs, path);
    assert(full.contains(i));
    let q = choose|q: int| 0 <= q < full.len() && full[q] == i;
    assert(q >= mp.len());
    if q > mp.len() {
        assert(full[mp.len() as int] >= i);
        assert(full[mp.len() as int] < full[q]);
    }
    assert(full.take(mp.len() + 1int) =~= mp.push(i));
}

/// Profiles matching beyond a prefix of the configuration lie beyond it.
proof fn lemma_matching_take(ctxs: Seq<Seq<Option<Seq<char>>>>, path: Seq<char>, i: int)
    requires
        0 <= i <= ctxs.len(),
        matching_indices(ctxs.take(i), path) == matching_indices(ctxs, path).take(matching_indices(ctxs.take(i), path).len() as int),
        matching_indices(ctxs.take(i), path).len() <= matching_indices(ctxs, path).len(),
    ensures
        forall|q: int| 0 <= q < matching_indices(ctxs.take(i), path).len() ==> #[trigger] matching_indices(ctxs, path)[q] < i,
        forall|q: int| matching_indices(ctxs.take(i), path).len() <= q < matching_indices(ctxs, path).len() ==> #[trigger] matching_indices(ctxs, path)[q] >= i,
{
    lemma_matching_indices(ctxs.take(i), path);
    lemma_matching_indices(ctxs, path);
    let mp = matching_indices(ctxs.take(i), path);
    let full = matching_indices(ctxs, path);
    assert forall|q: int| 0 <= q < mp.len() implies #[trigger] full[q] < i by {
        assert(full[q] == mp[q]);
    }
    assert forall|q: int| mp.len() <= q < full.len() implies #[trigger] full[q] >= i by {
        if full[q] < i {
            assert(first_match(ctxs[full[q]], path) is Some);
            assert(ctxs.take(i)[full[q]] == ctxs[full[q]]);
            assert(mp.contains(full[q]));
            let r = choose|r: int| 0 <= r < mp.len() && mp[r] == full[q];
            assert(full[r] == mp[r]);
            assert(r < q);
        }
    }
}

/// Inserts a resolved profile at its sorted position.
fn insert_resolved<'a, C>(v: &mut Vec<ResolvedProfile<'a, C>>, item: ResolvedProfile<'a, C>)
    requires
        resolved_sorted(resolved_view(old(v)@)),
        forall|a: int| 0 <= a < old(v)@.len() ==> old(v)@[a].name@ != item.name@,
    ensures
        resolved_sorted(resolved_view(final(v)@)),
        exists|k: int| 0 <= k <= old(v)@.len() && final(v)@ == old(v)@.insert(k, item),
{
    let ghost kv = resolved_view(v@);
    let mut k: usize = 0;
    while k < v.len() && matches!(v[k].compare(&item), Order::Less)
        invariant
            k <= v.len(),
            kv == resolved_view(v@),
            forall|a: int| 0 <= a < k ==> resolved_order(#[trigger] kv[a], item.key()) < 0,
        decreases v.len() - k,
    {
        k = k + 1;
    }
    proof {
        if k < v.len() {
            lemma_resolved_order_antisym(kv[k as int], item.key());
            lemma_char_seq_order_antisym(v@[k as int].name@, item.name@);
            assert(resolved_order(kv[k as int], item.key()) != 0);
        }
        lemma_resolved_place(kv, item.key(), k as int);
    }
    let ghost old_v = v@;
    v.insert(k, item);
    proof {
        assert(resolved_view(v@) =~= kv.take(k as int) + seq![item.key()] + kv.skip(k as int));
    }
}

/// Placing a key at its sorted position keeps keys sorted.
proof fn lemma_resolved_place(
    kv: Seq<(Option<Option<Seq<char>>>, Seq<char>)>,
    x: (Option<Option<Seq<char>>>, Seq<char>),
    k: int,
)
    requires
        resolved_sorted(kv),
        0 <= k <= kv.len(),
        forall|a: int| 0 <= a < k ==> resolved_order(#[trigger] kv[a], x) < 0,
        k < kv.len() ==> resolved_order(kv[k], x) > 0,
    ensures
        resolved_sorted(kv.take(k) + seq![x] + kv.skip(k)),
{
    let f = kv.take(k) + seq![x] + kv.skip(k);
    if k < kv.len() {
        lemma_resolved_order_antisym(kv[k], x);
    }
    assert forall|i: int, j: int| 0 <= i < j < f.len() implies resolved_order(f[i], f[j]) < 0 by {
        if j < k {
            assert(f[i] == kv[i] && f[j] == kv[j]);
        } else if j == k {
            assert(f[i] == kv[i]);
        } else if i < k {
            assert(f[i] == kv[i]);
            assert(f[j] == kv[j - 1]);
            lemma_resolved_order_trans(kv[i], x, kv[k]);
            if j - 1 > k {
                lemma_resolved_order_trans(kv[i], kv[k], kv[j - 1]);
            }
        } else if i == k {
            assert(f[j] == kv[j - 1]);
            if j - 1 > k {
                lemma_resolved_order_trans(x, kv[k], kv[j - 1]);
            }
        } else {
            assert(f[i] == kv[i - 1]);
            assert(f[j] == kv[j - 1]);
        }
    }
}

/// Two prefixes of one sequence: the shorter is a prefix of the longer.
proof fn lemma_common_prefixes(a: Seq<Comp>, b: Seq<Comp>, p: Seq<Comp>)
    requires
        a.is_prefix_of(p),
        b.is_prefix_of(p),
    ensures
        a.len() <= b.len() ==> a.is_prefix_of(b),
        b.len() <= a.len() ==> b.is_prefix_of(a),
{
    assert forall|i: int| 0 <= i < a.len() && i < b.len() implies a[i] == b[i] by {
        assert(a[i] == p.subrange(0, a.len() as int)[i]);
        assert(b[i] == p.subrange(0, b.len() as int)[i]);
    }
    if a.len() <= b.len() {
        assert(a =~= b.subrange(0, a.len() as int));
    } else {
        assert(b =~= a.subrange(0, b.len() as int));
    }
}

/// Law: in a well-formed set of contexts, at most one context lies above any
/// given path.
pub proof fn lemma_single_match(ctx: Seq<Option<Seq<char>>>, path: Seq<char>, i: int, j: int)
    requires
        entries_wf(ctx),
        0 <= i < ctx.len(),
        0 <= j < ctx.len(),
        matches_at(ctx, path, i),
        matches_at(ctx, path, j),
    ensures
        i == j,
{
    if i != j {
        let x = ctx[i]->0;
        let y = ctx[j]->0;
        lemma_common_prefixes(components(x), components(y), components(path));
        assert(precedence_of(ctx[i], ctx[j]) == Precedence::KeepBoth);
    }
}

/// Law: of two directories above one path, the one that comes first in path
/// order is the broader one: the other lies beneath it.
pub proof fn lemma_broadest_first(a: Seq<char>, b: Seq<char>, path: Seq<char>)
    requires
        path_starts_with(path, a),
        path_starts_with(path, b),
        path_order(a, b) <= 0,
    ensures
        path_starts_with(b, a),
{
    lemma_common_prefixes(components(a), components(b), components(path));
    if components(b).len() < components(a).len() {
        lemma_comps_prefix_order(components(b), components(a));
        lemma_comps_order_antisym(components(a), components(b));
    } else if components(b).len() == components(a).len() {
        assert(components(a) =~= components(b));
    }
}

/// Law: the profiles that `resolve_profiles_by_path` returns are ordered
/// broadest context first: each later context lies beneath every earlier one.
pub proof fn lemma_resolved_by_path_broadest_first<'a, C, F: Fn(&str) -> Result<C, ConfigError>>(
    config: &IslandConfig,
    path: Seq<char>,
    f: F,
    v: Seq<ResolvedProfile<'a, C>>,
    i: int,
    j: int,
)
    requires
        resolved_sorted(resolved_view(v)),
        forall|a: int| 0 <= a < v.len() ==> #[trigger] config.resolved_before(v[a], path, f, config.names().len() as int),
        0 <= i < j < v.len(),
    ensures
        v[i].context is Some && v[j].context is Some,
        v[i].context->0.when_beneath is Some && v[j].context->0.when_beneath is Some,
        path_starts_with(v[j].context->0.when_beneath->0@, v[i].context->0.when_beneath->0@),
{
    assert(config.resolved_before(v[i], path, f, config.names().len() as int));
    assert(config.resolved_before(v[j], path, f, config.names().len() as int));
    let mi = choose|m: int| 0 <= m < config.names().len() && #[trigger] config.resolved_by_path(v[i], path, f, m);
    let mj = choose|m: int| 0 <= m < config.names().len() && #[trigger] config.resolved_by_path(v[j], path, f, m);
    lemma_first_match_found(config.contexts()[mi], path);
    lemma_first_match_found(config.contexts()[mj], path);
    let a = v[i].context->0.when_beneath->0@;
    let b = v[j].context->0.when_beneath->0@;
    assert(resolved_view(v)[i] == v[i].key());
    assert(resolved_view(v)[j] == v[j].key());
    assert(resolved_order(v[i].key(), v[j].key()) < 0);
    assert(v[i].context->0@ == Some(a));
    assert(v[j].context->0@ == Some(b));
    lemma_comps_order_antisym(components(a), components(b));
    if path_order(a, b) > 0 {
        assert(false);
    }
    lemma_broadest_first(a, b, path);
}

/// A found first match is a match.
proof fn lemma_first_match_found(ctx: Seq<Option<Seq<char>>>, path: Seq<char>)
    ensures
        first_match(ctx, path) matches Some(j) ==> 0 <= j < ctx.len() && matches_at(ctx, path, j),
    decreases ctx.len(),
{
    if ctx.len() > 0 && !matches_at(ctx, path, 0) {
        let d = ctx.drop_first();
        lemma_first_match_found(d, path);
        if let Some(j) = first_match(d, path) {
            assert(d[j] == ctx[j + 1]);
        }
    }
}

/// The raw and canonical forms of a profile's `when_beneath` directory, or
/// why it could not be made canonical.
pub struct ContextOutcome {
    pub when_beneath: String,
    pub canonical: Result<String, String>,
}

impl View for ContextOutcome {
    type V = (Seq<char>, Result<Seq<char>, Seq<char>>);

    open spec fn view(&self) -> (Seq<char>, Result<Seq<char>, Seq<char>>) {
        (
            self.when_beneath@,
            match &self.canonical {
                Ok(p) => Ok(p@),
                Err(e) => Err(e@),
            },
        )
    }
}

/// The views of a sequence of context outcomes.
pub open spec fn outcomes_view(v: Seq<ContextOutcome>) -> Seq<(Seq<char>, Result<Seq<char>, Seq<char>>)> {
    v.map_values(|o: ContextOutcome| o@)
}

/// The warning that inserting `o` into the contexts `s` deserves, if any.
pub open spec fn insert_warning(s: Seq<Option<Seq<char>>>, o: Option<Seq<char>>, name: Seq<char>) -> Option<Seq<char>> {
    if exists|i: int| 0 <= i < s.len() && precedence_of(s[i], o) == Precedence::RemoveOne {
        Some("profile \""@ + name + "\" has duplicate contexts: ignoring "@ + entry_debug(o))
    } else if exists|i: int| 0 <= i < s.len() && precedence_of(s[i], o) == Precedence::RemoveOther {
        Some("profile \""@ + name + "\" has overlapping contexts: ignoring "@ + entry_debug(o))
    } else {
        let removed = s.filter(|e: Option<Seq<char>>| precedence_of(e, o) == Precedence::RemoveSelf);
        if removed.len() == 0 {
            None
        } else {
            Some(
                "profile \""@ + name
                    + "\" has overlapping contexts: kept the more specific one and removed {"@
                    + entries_debug(removed) + "}"@,
            )
        }
    }
}

/// The warning for a directory that could not be made canonical.
pub open spec fn canonical_warning(name: Seq<char>, raw: Seq<char>, err: Seq<char>) -> Seq<char> {
    "Warning: ignoring context for profile \""@ + name + "\" because of error regarding directory \""@
        + raw + "\": "@ + err
}

/// The contexts of a profile after inserting, in order, every canonical
/// directory of `outs`.
pub open spec fn profile_contexts(outs: Seq<(Seq<char>, Result<Seq<char>, Seq<char>>)>) -> Seq<Option<Seq<char>>>
    decreases outs.len(),
{
    if outs.len() == 0 {
        Seq::empty()
    } else {
        let s = profile_contexts(outs.drop_last());
        match outs.last().1 {
            Ok(p) => set_after_insert(s, Some(p)),
            Err(_) => s,
        }
    }
}

/// Law: every context of a profile is the canonical directory of one of the
/// outcomes it was built from; the raw `when_beneath` texts and the outcomes
/// that failed never become contexts.
pub proof fn lemma_contexts_are_canonical(
    outs: Seq<(Seq<char>, Result<Seq<char>, Seq<char>>)>,
    x: Option<Seq<char>>,
)
    requires
        profile_contexts(outs).contains(x),
    ensures
        x is Some,
        exists|j: int| 0 <= j < outs.len() && outs[j].1 == Ok::<Seq<char>, Seq<char>>(x->0),
    decreases outs.len(),
{
    let rest = outs.drop_last();
    let s = profile_contexts(rest);
    if outs.len() == 0 {
        assert(false);
    }
    let from_rest = s.contains(x);
    match outs.last().1 {
        Ok(p) => {
            lemma_set_after_insert_has(s, Some(p), x);
            if !from_rest {
                assert(outs[outs.len() - 1].1 == Ok::<Seq<char>, Seq<char>>(x->0));
            }
        },
        Err(_) => {},
    }
    if from_rest {
        lemma_contexts_are_canonical(rest, x);
        let j = choose|j: int| 0 <= j < rest.len() && rest[j].1 == Ok::<Seq<char>, Seq<char>>(x->0);
        assert(outs[j] == rest[j]);
    }
}

/// Law: every canonical directory of the outcomes is held by the profile: some
/// context of the profile is that directory or a directory above it, so the
/// profile applies beneath every directory it was given.
pub proof fn lemma_canonical_dirs_held(outs: Seq<(Seq<char>, Result<Seq<char>, Seq<char>>)>, j: int)
    requires
        0 <= j < outs.len(),
        outs[j].1 is Ok,
    ensures
        insert_ignored(profile_contexts(outs), Some(outs[j].1->Ok_0)),
    decreases outs.len(),
{
    let rest = outs.drop_last();
    let x = Some(outs[j].1->Ok_0);
    if j == outs.len() - 1 {
        lemma_inserted_is_held(profile_contexts(rest), x);
    } else {
        assert(rest[j] == outs[j]);
        lemma_canonical_dirs_held(rest, j);
        match outs.last().1 {
            Ok(p) => lemma_ignored_persists(profile_contexts(rest), Some(p), x),
            Err(_) => {},
        }
    }
}

/// The warnings produced while building a profile's contexts from `outs`.
pub open spec fn profile_warnings(name: Seq<char>, outs: Seq<(Seq<char>, Result<Seq<char>, Seq<char>>)>) -> Seq<Seq<char>>
    decreases outs.len(),
{
    if outs.len() == 0 {
        Seq::empty()
    } else {
        let w = profile_warnings(name, outs.drop_last());
        let s = profile_contexts(outs.drop_last());
        match outs.last().1 {
            Err(e) => w.push(canonical_warning(name, outs.last().0, e)),
            Ok(p) => match insert_warning(s, Some(p), name) {
                Some(m) => w.push("Warning: "@ + m),
                None => w,
            },
        }
    }
}

/// In a well-formed set, no context can both equal and cover another one.
pub proof fn lemma_not_equal_and_covered(s: Seq<Option<Seq<char>>>, o: Option<Seq<char>>, i: int, j: int)
    requires
        entries_wf(s),
        0 <= i < s.len(),
        0 <= j < s.len(),
        precedence_of(s[i], o) == Precedence::RemoveOne,
    ensures
        precedence_of(s[j], o) != Precedence::RemoveOther,
{
    if precedence_of(s[j], o) == Precedence::RemoveOther {
        assert(i != j);
        match (s[i], s[j], o) {
            (Some(x), Some(y), Some(z)) => {
                let cx = components(x);
                let cy = components(y);
                let cz = components(z);
                assert(cz.is_prefix_of(cx) && cx.is_prefix_of(cz));
                assert(cx =~= cz);
                assert(cy.is_prefix_of(cz));
                assert(!cz.is_prefix_of(cy));
                assert(precedence_of(s[i], s[j]) == Precedence::KeepBoth);
            },
            _ => {
                assert(precedence_of(s[i], s[j]) == Precedence::KeepBoth);
            },
        }
    }
}

/// The warning of an actual insertion is the one `insert_warning` describes.
proof fn lemma_insert_result_warning(
    s: Seq<Option<Seq<char>>>,
    o: Option<Seq<char>>,
    r: InsertResult,
    name: Seq<char>,
)
    requires
        entries_wf(s),
        match r {
            InsertResult::IgnoredEqual(e) => e@ == o && exists|i: int|
                0 <= i < s.len() && precedence_of(s[i], o) == Precedence::RemoveOne,
            InsertResult::IgnoredSubset(e) => e@ == o && exists|i: int|
                0 <= i < s.len() && precedence_of(s[i], o) == Precedence::RemoveOther,
            InsertResult::Swapped(removed) => {
                &&& forall|i: int|
                    0 <= i < s.len() ==> (precedence_of(s[i], o) == Precedence::KeepBoth
                        || precedence_of(s[i], o) == Precedence::RemoveSelf)
                &&& entries_view(removed@) == s.filter(
                    |e: Option<Seq<char>>| precedence_of(e, o) == Precedence::RemoveSelf,
                )
            },
        },
    ensures
        warning_text(r, name) == insert_warning(s, o, name),
{
    match r {
        InsertResult::IgnoredSubset(e) => {
            if exists|i: int| 0 <= i < s.len() && precedence_of(s[i], o) == Precedence::RemoveOne {
                let i = choose|i: int| 0 <= i < s.len() && precedence_of(s[i], o) == Precedence::RemoveOne;
                let j = choose|j: int| 0 <= j < s.len() && precedence_of(s[j], o) == Precedence::RemoveOther;
                lemma_not_equal_and_covered(s, o, i, j);
            }
        },
        InsertResult::Swapped(removed) => {
            assert(!(exists|i: int| 0 <= i < s.len() && precedence_of(s[i], o) == Precedence::RemoveOne));
            assert(!(exists|i: int| 0 <= i < s.len() && precedence_of(s[i], o) == Precedence::RemoveOther));
        },
        _ => {},
    }
}

impl IslandConfig {
    /// Builds a profile from its parsed configuration: the outcome of making
    /// each `when_beneath` directory canonical (in file order), the
    /// environment entries, and the workspace flag (on by default).  Contexts
    /// whose directory could not be made canonical are ignored; overlapping
    /// contexts are reduced to the broadest.  Returns the profile and the
    /// warnings to show, in order.
    pub fn parse_profile_config(
        profile_name: &str,
        contexts: &Vec<ContextOutcome>,
        env: &Vec<Env>,
        workspace: Option<bool>,
    ) -> (r: (Profile, Vec<String>))
        ensures
            r.0.wf(),
            r.0.contexts@ == profile_contexts(outcomes_view(contexts@)),
            envs_view(r.0.env_vars@).to_set() == envs_view(env@).to_set(),
            r.0.workspace == match workspace {
                Some(w) => w,
                None => true,
            },
            r.1@.map_values(|w: String| w@) == profile_warnings(profile_name@, outcomes_view(contexts@)),
            forall|x: Option<Seq<char>>| #[trigger] r.0.contexts@.contains(x) ==> x is Some && exists|j: int|
                0 <= j < contexts.len() && (#[trigger] contexts@[j]).canonical is Ok
                    && contexts@[j].canonical->Ok_0@ == x->0,
            forall|j: int| 0 <= j < contexts.len() && (#[trigger] contexts@[j]).canonical is Ok ==> insert_ignored(
                r.0.contexts@,
                Some(contexts@[j].canonical->Ok_0@),
            ),
    {
        let mut set = ContextSet::new();
        let mut warnings: Vec<String> = Vec::new();
        let ghost outs = outcomes_view(contexts@);
        let mut i: usize = 0;
        proof {
            assert(outs.take(0) =~= Seq::<(Seq<char>, Result<Seq<char>, Seq<char>>)>::empty());
            assert(warnings@.map_values(|w: String| w@) =~= Seq::<Seq<char>>::empty());
        }
        while i < contexts.len()
            invariant
                i <= contexts.len(),
                outs == outcomes_view(contexts@),
                set.wf(),
                set@ == profile_contexts(outs.take(i as int)),
                warnings@.map_values(|w: String| w@) == profile_warnings(profile_name@, outs.take(i as int)),
            decreases contexts.len() - i,
        {
            let outcome = &contexts[i];
            proof {
                assert(outs.take(i + 1).drop_last() =~= outs.take(i as int));
                assert(outs.take(i + 1).last() == outs[i as int]);
                assert(outs[i as int] == outcome@);
            }
            let ghost before = warnings@;
            match &outcome.canonical {
                Err(msg) => {
                    let a = concat_str("Warning: ignoring context for profile \"", profile_name);
                    let b = concat_str(&a, "\" because of error regarding directory \"");
                    let c = concat_str(&b, &outcome.when_beneath);
                    let d = concat_str(&c, "\": ");
                    let m = concat_str(&d, msg);
                    warnings.push(m);
                    proof {
                        assert(warnings@.map_values(|w: String| w@) =~= before.map_values(|w: String| w@).push(m@));
                    }
                },
                Ok(p) => {
                    let ghost s0 = set@;
                    let entry = ContextEntry { when_beneath: Some(p.clone()) };
                    let res = set.insert(entry);
                    proof {
                        lemma_insert_result_warning(s0, Some(p@), res, profile_name@);
                    }
                    match res.warning(profile_name) {
                        Some(m) => {
                            let line = concat_str("Warning: ", &m);
                            warnings.push(line);
                            proof {
                                assert(warnings@.map_values(|w: String| w@) =~= before.map_values(|w: String| w@).push(line@));
                            }
                        },
                        None => {},
                    }
                },
            }
            i = i + 1;
        }
        proof {
            assert(outs.take(contexts.len() as int) =~= outs);
            assert forall|x: Option<Seq<char>>| #[trigger] set@.contains(x) implies x is Some && exists|j: int|
                0 <= j < contexts.len() && (#[trigger] contexts@[j]).canonical is Ok
                    && contexts@[j].canonical->Ok_0@ == x->0 by {
                lemma_contexts_are_canonical(outs, x);
                let j = choose|j: int| 0 <= j < outs.len() && outs[j].1 == Ok::<Seq<char>, Seq<char>>(x->0);
                assert(outs[j] == contexts@[j]@);
            }
            assert forall|j: int| 0 <= j < contexts.len() && (#[trigger] contexts@[j]).canonical is Ok implies insert_ignored(
                set@,
                Some(contexts@[j].canonical->Ok_0@),
            ) by {
                assert(outs[j] == contexts@[j]@);
                lemma_canonical_dirs_held(outs, j);
            }
        }
        let mut env_vars: Vec<Env> = Vec::new();
        let mut j: usize = 0;
        proof {
            assert(envs_view(env_vars@) =~= Seq::<(Seq<char>, Seq<char>)>::empty());
            assert(envs_view(env@).take(0).to_set() =~= Set::<(Seq<char>, Seq<char>)>::empty());
            assert(envs_view(env_vars@).to_set() =~= Set::<(Seq<char>, Seq<char>)>::empty());
        }
        while j < env.len()
            invariant
                j <= env.len(),
                envs_sorted(envs_view(env_vars@)),
                envs_view(env_vars@).to_set() == envs_view(env@).take(j as int).to_set(),
            decreases env.len() - j,
        {
            let e = env[j].duplicate();
            assert(e@ == envs_view(env@)[j as int]);
            env_set_insert(&mut env_vars, e);
            proof {
                let t = envs_view(env@).take(j + 1);
                assert(t =~= envs_view(env@).take(j as int).push(e@));
                assert(t.to_set() =~= envs_view(env@).take(j as int).to_set().insert(e@)) by {
                    assert forall|x| t.to_set().contains(x) <==> envs_view(env@).take(j as int).to_set().insert(e@).contains(x) by {
                        let u = envs_view(env@).take(j as int);
                        if u.contains(x) {
                            let k = choose|k: int| 0 <= k < u.len() && u[k] == x;
                            assert(t[k] == x);
                        }
                        if x == e@ {
                            assert(t[j as int] == x);
                        }
                        if t.contains(x) {
                            let k = choose|k: int| 0 <= k < t.len() && t[k] == x;
                            if k < j {
                                assert(u[k] == x);
                            }
                        }
                    }
                }
            }
            j = j + 1;
        }
        proof {
            assert(envs_view(env@).take(env.len() as int) =~= envs_view(env@));
        }
        let w = match workspace {
            Some(x) => x,
            None => true,
        };
        (Profile { contexts: set, env_vars, workspace: w }, warnings)
    }

    /// The directory of a profile.
    pub fn profile_dir(&self, profile_name: &str) -> (r: String)
        ensures
            r@ == join_spec(self.dir(), profile_name@),
    {
        join(&self.profiles_dir, profile_name)
    }

    /// The Landlock configuration directory of a profile.
    pub fn landlock_dir(&self, profile_name: &str) -> (r: String)
        ensures
            r@ == join_spec(join_spec(self.dir(), profile_name@), "landlock"@),
    {
        let d = self.profile_dir(profile_name);
        join(&d, "landlock")
    }

    /// The default base Landlock configuration file of a profile.
    pub fn default_base_path(&self, profile_name: &str) -> (r: String)
        ensures
            r@ == join_spec(
                join_spec(join_spec(self.dir(), profile_name@), "landlock"@),
                ISLAND_DEFAULT_CONFIG_BASE_NAME@,
            ),
    {
        let d = self.landlock_dir(profile_name);
        join(&d, ISLAND_DEFAULT_CONFIG_BASE_NAME)
    }

    /// Island's configuration directory: `$XDG_CONFIG_HOME/island`, or else
    /// `$HOME/.config/island`.
    pub fn config_dir(xdg_config_home: Option<&str>, home: Option<&str>) -> (r: Result<String, ConfigError>)
        ensures
            match (xdg_config_home, home) {
                (Some(x), _) => r is Ok && r->Ok_0@ == join_spec(x@, "island"@),
                (None, Some(h)) => r is Ok && r->Ok_0@ == join_spec(join_spec(h@, ".config"@), "island"@),
                (None, None) => r is Err && r->Err_0 is UnknownHomeConfig,
            },
    {
        let home_config = match xdg_config_home {
            Some(c) => c.to_string(),
            None => match home {
                Some(h) => join(h, ".config"),
                None => {
                    return Err(ConfigError::UnknownHomeConfig);
                },
            },
        };
        Ok(join(&home_config, "island"))
    }
}

/// What updating a profile's default base configuration calls for.
#[derive(Debug, PartialEq, Eq)]
pub enum DefaultUpdate {
    /// The file is missing or current: nothing to do.
    UpToDate,
    /// The file is outdated and the shared lock forbids changing it: retry
    /// with the exclusive lock.
    NeedsExclusive,
    /// Write the current default to this file.
    Write { path: String },
}

/// The default base configuration is outdated: it exists with a content other
/// than the current default.
pub fn check_profile_default(exists: bool, content: &str, current: &str) -> (r: bool)
    ensures
        r == (exists && content@ != current@),
{
    exists && !strings_eq(content, current)
}

impl IslandConfig {
    /// Decides the update of a profile's default base configuration, given
    /// the lock held and whether the file is outdated.  The update is first
    /// tried with a shared lock and needs the exclusive lock only when the
    /// file must be written.
    pub fn update_profile_default(&self, profile_name: &str, mode: LockMode, outdated: bool) -> (r: DefaultUpdate)
        ensures
            !outdated ==> r == DefaultUpdate::UpToDate,
            outdated && mode == LockMode::Shared ==> r == DefaultUpdate::NeedsExclusive,
            outdated && mode == LockMode::Exclusive ==> (r matches DefaultUpdate::Write { path }
                && path@ == join_spec(join_spec(join_spec(self.dir(), profile_name@), "landlock"@), ISLAND_DEFAULT_CONFIG_BASE_NAME@)),
    {
        if !outdated {
            return DefaultUpdate::UpToDate;
        }
        match modify_permission(mode) {
            ModifyPermission::NeedsUpdate => DefaultUpdate::NeedsExclusive,
            ModifyPermission::Proceed => DefaultUpdate::Write { path: self.default_base_path(profile_name) },
        }
    }
}

/// What `toml::Value::String(s).to_string()` writes: `s` as a TOML string.
pub uninterp spec fn toml_string_text(s: Seq<char>) -> Seq<char>;

/// `s` as a TOML string (the `Display` of `toml::Value::String`).
#[verifier::external_body]
fn toml_string(s: &str) -> (r: String)
    ensures
        r@ == toml_string_text(s@),
{
    toml::Value::String(s.to_string()).to_string()
}

/// The items joined with a separator.
pub open spec fn join_with(items: Seq<Seq<char>>, sep: Seq<char>) -> Seq<char>
    decreases items.len(),
{
    if items.len() == 0 {
        Seq::empty()
    } else if items.len() == 1 {
        items[0]
    } else {
        join_with(items.drop_last(), sep) + sep + items.last()
    }
}

/// Law: joining a single item gives the item itself, with no separator.
pub proof fn lemma_join_single(x: Seq<char>, sep: Seq<char>)
    ensures
        join_with(seq![x], sep) == x,
{
}

/// Law: joining two non-empty lists one after the other is joining each and
/// putting one separator between them; so a separator stands exactly between
/// two neighbouring items, never before the first or after the last.
pub proof fn lemma_join_concat(a: Seq<Seq<char>>, b: Seq<Seq<char>>, sep: Seq<char>)
    requires
        a.len() > 0,
        b.len() > 0,
    ensures
        join_with(a + b, sep) == join_with(a, sep) + sep + join_with(b, sep),
    decreases b.len(),
{
    let ab = a + b;
    assert(ab.last() == b.last());
    if b.len() == 1 {
        assert(ab.drop_last() =~= a);
    } else {
        let b1 = b.drop_last();
        assert(ab.drop_last() =~= a + b1);
        lemma_join_concat(a, b1, sep);
        let ja = join_with(a, sep);
        let jb1 = join_with(b1, sep);
        assert(join_with(ab, sep) == (ja + sep + jb1) + sep + b.last());
        assert(join_with(b, sep) == jb1 + sep + b.last());
        assert((ja + sep + jb1) + sep + b.last() =~= ja + sep + (jb1 + sep + b.last()));
    }
}

/// The TOML text of a `path_beneath` rule.
pub open spec fn path_beneath_rule(allowed_access: Seq<Seq<char>>, parent: Seq<Seq<char>>) -> Seq<char> {
    let accesses = join_with(allowed_access.map_values(|a: Seq<char>| toml_string_text(a)), ", "@);
    let parents = join_with(parent.map_values(|p: Seq<char>| "    "@ + toml_string_text(p)), ",\n"@) + ","@;
    "[[path_beneath]]\nallowed_access = ["@ + accesses + "]\nparent = [\n"@ + parents + "\n]\n"@
}

/// Joins items with a separator, each item first given a prefix and written
/// as a TOML string.
fn join_toml_strings(items: &[String], prefix: &str, sep: &str) -> (r: String)
    ensures
        r@ == join_with(items@.map_values(|s: String| prefix@ + toml_string_text(s@)), sep@),
{
    let ghost mapped = items@.map_values(|s: String| prefix@ + toml_string_text(s@));
    let mut out = String::new();
    let mut i: usize = 0;
    assert(mapped.take(0) =~= Seq::<Seq<char>>::empty());
    while i < items.len()
        invariant
            i <= items.len(),
            mapped == items@.map_values(|s: String| prefix@ + toml_string_text(s@)),
            out@ == join_with(mapped.take(i as int), sep@),
        decreases items.len() - i,
    {
        let t = toml_string(&items[i]);
        let item = concat_str(prefix, &t);
        assert(item@ == mapped[i as int]);
        assert(mapped.take(i + 1).drop_last() =~= mapped.take(i as int));
        if i == 0 {
            assert(mapped.take(1) =~= seq![mapped[0]]);
            out = item;
        } else {
            let a = concat_str(&out, sep);
            out = concat_str(&a, &item);
        }
        i = i + 1;
    }
    assert(mapped.take(items.len() as int) =~= mapped);
    out
}

/// The TOML text of a `path_beneath` rule allowing `allowed_access` beneath
/// each of the `parent` directories.
pub fn generate_path_beneath_rule(allowed_access: &[String], parent: &[String]) -> (r: String)
    ensures
        r@ == path_beneath_rule(allowed_access@.map_values(|s: String| s@), parent@.map_values(|s: String| s@)),
{
    let parents = join_toml_strings(parent, "    ", ",\n");
    let accesses = join_toml_strings(allowed_access, "", ", ");
    proof {
        reveal_strlit("");
        assert forall|x: Seq<char>| ""@ + x == x by {
            assert(""@ + x =~= x);
        }
        assert(allowed_access@.map_values(|s: String| s@).map_values(|a: Seq<char>| toml_string_text(a))
            =~= allowed_access@.map_values(|s: String| ""@ + toml_string_text(s@)));
        assert(parent@.map_values(|s: String| s@).map_values(|p: Seq<char>| "    "@ + toml_string_text(p))
            =~= parent@.map_values(|s: String| "    "@ + toml_string_text(s@)));
    }
    let p2 = concat_str(&parents, ",");
    let a = concat_str("[[path_beneath]]\nallowed_access = [", &accesses);
    let b = concat_str(&a, "]\nparent = [\n");
    let c = concat_str(&b, &p2);
    concat_str(&c, "\n]\n")
}

} // verus!

//! Decisions around a dependency analysis (`lddtree`): the extra library
//! paths learnt from a dependency tree, whether another analysis pass is
//! worth it, and the paths a sandboxed command needs.  The analysis itself
//! reads files and is run by the program; the library sees its result as a
//! `DepTree`.
use vstd::prelude::*;
use crate::path::{components, has_root, is_absolute, parent, parent_spec};
use crate::pathset::{strings_view, paths_sorted, path_set, path_set_insert, clone_strings};
use crate::text::concat_str;

verus! {

/// A library of a dependency tree.
#[derive(Debug, Clone)]
pub struct DepLibrary {
    /// Library name.
    pub name: String,
    /// The path to the library (just its name where it was not found).
    pub path: String,
    /// The normalized real path to the library, where it was found.
    pub realpath: Option<String>,
    /// Runtime library search paths.
    pub rpath: Vec<String>,
}

/// A dependency tree: the binary's run-time search paths and its libraries
/// in the order the analysis lists them.
#[derive(Debug, Clone)]
pub struct DepTree {
    /// Runtime library search paths of the binary.
    pub rpath: Vec<String>,
    /// All the libraries the binary uses, with their names.
    pub libraries: Vec<DepLibrary>,
}

/// The view of a library: path, real path, search paths.
pub open spec fn lib_view(l: DepLibrary) -> (Seq<char>, Option<Seq<char>>, Seq<Seq<char>>) {
    (l.path@, match l.realpath {
        Some(r) => Some(r@),
        None => None,
    }, strings_view(l.rpath@))
}

/// The views of the libraries of a tree.
pub open spec fn libs_view(v: Seq<DepLibrary>) -> Seq<(Seq<char>, Option<Seq<char>>, Seq<Seq<char>>)> {
    v.map_values(|l: DepLibrary| lib_view(l))
}

/// The absolute paths among search paths.
pub open spec fn absolute_only(s: Seq<Seq<char>>) -> Seq<Seq<char>>
    decreases s.len(),
{
    if s.len() == 0 {
        Seq::empty()
    } else if has_root(s.last()) {
        absolute_only(s.drop_last()).push(s.last())
    } else {
        absolute_only(s.drop_last())
    }
}

/// The directory a library was found in: that of its real path, or else of
/// its path when that is absolute.
pub open spec fn library_dir(l: (Seq<char>, Option<Seq<char>>, Seq<Seq<char>>)) -> Option<Seq<char>> {
    match l.1 {
        Some(r) => parent_spec(r),
        None => if has_root(l.0) {
            parent_spec(l.0)
        } else {
            None
        },
    }
}

/// The extra library paths a library contributes: its absolute search
/// paths, then its directory.
pub open spec fn library_contribution(l: (Seq<char>, Option<Seq<char>>, Seq<Seq<char>>)) -> Seq<Seq<char>> {
    absolute_only(l.2) + match library_dir(l) {
        Some(d) => seq![d],
        None => Seq::empty(),
    }
}

/// All the extra library paths of a tree, before removing repetitions.
pub open spec fn contributions(rpath: Seq<Seq<char>>, libs: Seq<(Seq<char>, Option<Seq<char>>, Seq<Seq<char>>)>) -> Seq<Seq<char>>
    decreases libs.len(),
{
    if libs.len() == 0 {
        absolute_only(rpath)
    } else {
        contributions(rpath, libs.drop_last()) + library_contribution(libs.last())
    }
}

/// The paths of a sequence as a set of component sequences.
pub open spec fn comp_set(s: Seq<Seq<char>>) -> Set<Seq<crate::path::Comp>> {
    Set::new(|c: Seq<crate::path::Comp>| exists|i: int| 0 <= i < s.len() && components(s[i]) == c)
}

/// Appending a path adds its components to the set.
proof fn lemma_comp_set_push(s: Seq<Seq<char>>, p: Seq<char>)
    ensures
        comp_set(s.push(p)) == comp_set(s).insert(components(p)),
{
    assert forall|c| comp_set(s.push(p)).contains(c) <==> comp_set(s).insert(components(p)).contains(c) by {
        if comp_set(s.push(p)).contains(c) {
            let i = choose|i: int| 0 <= i < s.push(p).len() && components(s.push(p)[i]) == c;
            if i < s.len() {
                assert(s.push(p)[i] == s[i]);
            }
        }
        if comp_set(s).contains(c) {
            let i = choose|i: int| 0 <= i < s.len() && components(s[i]) == c;
            assert(s.push(p)[i] == s[i]);
        }
        if c == components(p) {
            assert(s.push(p)[s.len() as int] == p);
        }
    }
    assert(comp_set(s.push(p)) =~= comp_set(s).insert(components(p)));
}

/// The two ways of reading a sequence of paths as a set agree.
proof fn lemma_comp_set_path_set(s: Seq<Seq<char>>)
    ensures
        comp_set(s) == path_set(s),
{
    assert(comp_set(s) =~= path_set(s));
}

/// Adds the absolute ones of some search paths to a sorted set.
fn insert_absolute(set: &mut Vec<String>, paths: &Vec<String>, Ghost(acc): Ghost<Seq<Seq<char>>>) -> (r: Ghost<Seq<Seq<char>>>)
    requires
        paths_sorted(strings_view(old(set)@)),
        path_set(strings_view(old(set)@)) == comp_set(acc),
    ensures
        paths_sorted(strings_view(final(set)@)),
        r@ == acc + absolute_only(strings_view(paths@)),
        path_set(strings_view(final(set)@)) == comp_set(r@),
{
    let ghost pv = strings_view(paths@);
    let mut i: usize = 0;
    assert(pv.take(0) =~= Seq::<Seq<char>>::empty());
    assert(acc + absolute_only(pv.take(0)) =~= acc);
    while i < paths.len()
        invariant
            i <= paths.len(),
            pv == strings_view(paths@),
            paths_sorted(strings_view(set@)),
            path_set(strings_view(set@)) == comp_set(acc + absolute_only(pv.take(i as int))),
        decreases paths.len() - i,
    {
        proof {
            assert(pv.take(i + 1).drop_last() =~= pv.take(i as int));
            assert(pv.take(i + 1).last() == pv[i as int]);
        }
        if is_absolute(&paths[i]) {
            path_set_insert(set, paths[i].clone());
            proof {
                let a = acc + absolute_only(pv.take(i as int));
                assert(acc + absolute_only(pv.take(i + 1)) =~= a.push(pv[i as int]));
                lemma_comp_set_push(a, pv[i as int]);
            }
        } else {
            assert(acc + absolute_only(pv.take(i + 1)) =~= acc + absolute_only(pv.take(i as int)));
        }
        i = i + 1;
    }
    assert(pv.take(paths.len() as int) =~= pv);
    Ghost(acc + absolute_only(pv))
}

/// The extra library paths that a tree teaches, as a sorted set of paths:
/// the absolute search paths of the binary and of each library, and the
/// directory of each library found (or named by an absolute path).
pub fn collect_extra_library_paths(tree: &DepTree) -> (r: Vec<String>)
    ensures
        paths_sorted(strings_view(r@)),
        path_set(strings_view(r@)) == comp_set(contributions(strings_view(tree.rpath@), libs_view(tree.libraries@))),
{
    let mut set: Vec<String> = Vec::new();
    let ghost lv = libs_view(tree.libraries@);
    let ghost rv = strings_view(tree.rpath@);
    proof {
        assert(path_set(strings_view(set@)) =~= comp_set(Seq::<Seq<char>>::empty()));
    }
    let Ghost(acc0) = insert_absolute(&mut set, &tree.rpath, Ghost(Seq::<Seq<char>>::empty()));
    assert(acc0 =~= absolute_only(rv));
    let mut i: usize = 0;
    assert(lv.take(0) =~= Seq::<(Seq<char>, Option<Seq<char>>, Seq<Seq<char>>)>::empty());
    while i < tree.libraries.len()
        invariant
            i <= tree.libraries.len(),
            lv == libs_view(tree.libraries@),
            rv == strings_view(tree.rpath@),
            paths_sorted(strings_view(set@)),
            path_set(strings_view(set@)) == comp_set(contributions(rv, lv.take(i as int))),
        decreases tree.libraries.len() - i,
    {
        let lib = &tree.libraries[i];
        let ghost l = lv[i as int];
        assert(l == lib_view(*lib));
        proof {
            assert(lv.take(i + 1).drop_last() =~= lv.take(i as int));
            assert(lv.take(i + 1).last() == l);
        }
        let Ghost(acc) = insert_absolute(&mut set, &lib.rpath, Ghost(contributions(rv, lv.take(i as int))));
        let dir = match &lib.realpath {
            Some(r) => parent(r),
            None => if is_absolute(&lib.path) {
                parent(&lib.path)
            } else {
                None
            },
        };
        match dir {
            Some(d) => {
                let ghost dv = d@;
                path_set_insert(&mut set, d);
                proof {
                    lemma_comp_set_push(acc, dv);
                    assert(contributions(rv, lv.take(i + 1)) =~= acc.push(dv));
                }
            },
            None => {
                assert(contributions(rv, lv.take(i + 1)) =~= acc);
            },
        }
        i = i + 1;
    }
    assert(lv.take(tree.libraries.len() as int) =~= lv);
    set
}

/// A library that the analysis could not find by its search paths: no real
/// path and a non-empty relative path.
pub open spec fn unresolved(l: (Seq<char>, Option<Seq<char>>, Seq<Seq<char>>)) -> bool {
    l.1 is None && !has_root(l.0) && l.0.len() > 0
}

/// Whether some library of a tree is unresolved.
pub fn has_unresolved(tree: &DepTree) -> (r: bool)
    ensures
        r == exists|i: int| 0 <= i < tree.libraries@.len() && unresolved(#[trigger] lib_view(tree.libraries@[i])),
{
    let mut i: usize = 0;
    while i < tree.libraries.len()
        invariant
            i <= tree.libraries.len(),
            forall|k: int| 0 <= k < i ==> !unresolved(#[trigger] lib_view(tree.libraries@[k])),
        decreases tree.libraries.len() - i,
    {
        let lib = &tree.libraries[i];
        if lib.realpath.is_none() && !is_absolute(&lib.path) && !lib.path.as_str().is_empty() {
            assert(unresolved(lib_view(tree.libraries@[i as int])));
            return true;
        }
        i = i + 1;
    }
    false
}

/// The number of libraries found.
pub open spec fn found_count(libs: Seq<(Seq<char>, Option<Seq<char>>, Seq<Seq<char>>)>) -> nat
    decreases libs.len(),
{
    if libs.len() == 0 {
        0
    } else {
        found_count(libs.drop_last()) + if libs.last().1 is Some {
            1nat
        } else {
            0nat
        }
    }
}

/// No more libraries are found than listed.
proof fn lemma_found_count_bound(libs: Seq<(Seq<char>, Option<Seq<char>>, Seq<Seq<char>>)>)
    ensures
        found_count(libs) <= libs.len(),
    decreases libs.len(),
{
    if libs.len() > 0 {
        lemma_found_count_bound(libs.drop_last());
    }
}

/// Counts the libraries of a tree that were found.
pub fn count_found(tree: &DepTree) -> (r: usize)
    ensures
        r == found_count(libs_view(tree.libraries@)),
{
    let ghost lv = libs_view(tree.libraries@);
    let mut n: usize = 0;
    let mut i: usize = 0;
    assert(lv.take(0) =~= Seq::<(Seq<char>, Option<Seq<char>>, Seq<Seq<char>>)>::empty());
    while i < tree.libraries.len()
        invariant
            i <= tree.libraries.len(),
            lv == libs_view(tree.libraries@),
            n == found_count(lv.take(i as int)),
        decreases tree.libraries.len() - i,
    {
        proof {
            assert(lv.take(i + 1).drop_last() =~= lv.take(i as int));
            assert(lv.take(i + 1).last() == lv[i as int]);
            lemma_found_count_bound(lv.take(i as int));
        }
        if tree.libraries[i].realpath.is_some() {
            n = n + 1;
        }
        i = i + 1;
    }
    assert(lv.take(tree.libraries.len() as int) =~= lv);
    n
}

/// At most this many extra analysis passes are made.
pub const MAX_PASSES: usize = 3;

/// What to do with the tree of the latest analysis.
#[derive(Debug)]
pub enum PassDecision {
    /// Keep this tree: it is the result.
    Stop,
    /// Analyze the binary again with these extra library paths.
    Reanalyze(Vec<String>),
}

/// The repeated analysis of a binary: `lddtree` searches with the binary's
/// own search paths, but some ecosystems (notably Nix) rely on library-level
/// search paths to find second-order dependencies, so the binary is analyzed
/// again with the paths learnt from the libraries already resolved, while
/// that makes progress.
pub struct DependencyPasses {
    /// Extra passes asked for so far.
    passes: usize,
    /// The extra library paths, a sorted set.
    extra_paths: Vec<String>,
    /// The number of libraries found by the latest analysis, once there is one.
    found: Option<usize>,
}

impl DependencyPasses {
    /// The extra passes asked for.
    pub closed spec fn passes(&self) -> nat {
        self.passes as nat
    }

    /// The extra library paths, as a set.
    pub closed spec fn extra(&self) -> Set<Seq<crate::path::Comp>> {
        path_set(strings_view(self.extra_paths@))
    }

    /// The libraries found by the latest analysis, once there is one.
    pub closed spec fn last_found(&self) -> Option<nat> {
        match self.found {
            Some(n) => Some(n as nat),
            None => None,
        }
    }

    /// The extra paths form a sorted set and at most `MAX_PASSES` passes
    /// were asked for.
    pub closed spec fn wf(&self) -> bool {
        &&& paths_sorted(strings_view(self.extra_paths@))
        &&& self.passes <= MAX_PASSES
        &&& (self.passes > 0 ==> self.found is Some)
    }

    /// Before the first analysis.
    pub fn new() -> (r: Self)
        ensures
            r.wf(),
            r.passes() == 0,
            r.last_found() is None,
            r.extra() == Set::<Seq<crate::path::Comp>>::empty(),
    {
        let r = DependencyPasses { passes: 0, extra_paths: Vec::new(), found: None };
        assert(r.extra() =~= Set::<Seq<crate::path::Comp>>::empty());
        r
    }

    /// Decides, given the tree of the latest analysis, whether to keep it or
    /// to analyze again.  Another pass is made while some library is
    /// unresolved, fewer than `MAX_PASSES` extra passes were made, and the
    /// previous pass found more libraries than the analysis before it; it
    /// searches the extra paths learnt so far and from this tree.
    pub fn next(&mut self, tree: &DepTree) -> (r: PassDecision)
        requires
            old(self).wf(),
        ensures
            final(self).wf(),
            match old(self).last_found() {
                Some(prev) if found_count(libs_view(tree.libraries@)) <= prev && old(self).passes() > 0 => r is Stop,
                _ => if old(self).passes() >= MAX_PASSES || !(exists|i: int| 0 <= i < tree.libraries@.len() && unresolved(
                    #[trigger] lib_view(tree.libraries@[i]),
                )) {
                    r is Stop
                } else {
                    &&& r matches PassDecision::Reanalyze(p)
                    &&& paths_sorted(strings_view(p@))
                    &&& path_set(strings_view(p@)) == old(self).extra().union(
                        comp_set(contributions(strings_view(tree.rpath@), libs_view(tree.libraries@))),
                    )
                    &&& final(self).extra() == path_set(strings_view(p@))
                    &&& final(self).passes() == old(self).passes() + 1
                    &&& final(self).last_found() == Some(found_count(libs_view(tree.libraries@)))
                },
            },
    {
        let n = count_found(tree);
        match self.found {
            Some(prev) => {
                if self.passes > 0 && n <= prev {
                    return PassDecision::Stop;
                }
            },
            None => {},
        }
        if self.passes >= MAX_PASSES || !has_unresolved(tree) {
            return PassDecision::Stop;
        }
        let learnt = collect_extra_library_paths(tree);
        let ghost before = strings_view(self.extra_paths@);
        let mut j: usize = 0;
        while j < learnt.len()
            invariant
                j <= learnt.len(),
                self.passes < MAX_PASSES,
                self.passes == old(self).passes,
                paths_sorted(strings_view(self.extra_paths@)),
                path_set(strings_view(self.extra_paths@)) == path_set(before).union(path_set(strings_view(learnt@).take(j as int))),
            decreases learnt.len() - j,
        {
            let ghost lv = strings_view(learnt@);
            path_set_insert(&mut self.extra_paths, learnt[j].clone());
            proof {
                assert(lv.take(j + 1) =~= lv.take(j as int).push(lv[j as int]));
                lemma_comp_set_path_set(lv.take(j + 1));
                lemma_comp_set_path_set(lv.take(j as int));
                lemma_comp_set_push(lv.take(j as int), lv[j as int]);
                assert(path_set(strings_view(self.extra_paths@)) =~= path_set(before).union(path_set(lv.take(j + 1))));
            }
            j = j + 1;
        }
        proof {
            assert(strings_view(learnt@).take(learnt.len() as int) =~= strings_view(learnt@));
            lemma_comp_set_path_set(strings_view(learnt@));
        }
        self.passes = self.passes + 1;
        self.found = Some(n);
        PassDecision::Reanalyze(clone_strings(&self.extra_paths))
    }
}

/// The paths a command needs from its dependency tree: the command, then
/// each library's real path, or else its path where that is absolute.
pub open spec fn dependency_paths_spec(command: Seq<char>, libs: Seq<(Seq<char>, Seq<char>, Option<Seq<char>>)>) -> Seq<Seq<char>>
    decreases libs.len(),
{
    if libs.len() == 0 {
        seq![command]
    } else {
        let rest = dependency_paths_spec(command, libs.drop_last());
        let l = libs.last();
        match l.2 {
            Some(r) => rest.push(r),
            None => if has_root(l.1) {
                rest.push(l.1)
            } else {
                rest
            },
        }
    }
}

/// The warnings for the libraries whose path could not be resolved.
pub open spec fn unresolved_warnings(libs: Seq<(Seq<char>, Seq<char>, Option<Seq<char>>)>) -> Seq<Seq<char>>
    decreases libs.len(),
{
    if libs.len() == 0 {
        Seq::empty()
    } else {
        let rest = unresolved_warnings(libs.drop_last());
        let l = libs.last();
        if l.2 is None && !has_root(l.1) {
            rest.push("Warning: could not resolve library path for "@ + l.0 + ": "@ + l.1)
        } else {
            rest
        }
    }
}

/// The view of named libraries: name, path, real path.
pub open spec fn named_view(v: Seq<DepLibrary>) -> Seq<(Seq<char>, Seq<char>, Option<Seq<char>>)> {
    v.map_values(|l: DepLibrary| (l.name@, l.path@, match l.realpath {
        Some(r) => Some(r@),
        None => None,
    }))
}

/// The paths a sandboxed command needs, given its dependency tree's
/// libraries, with a warning for each library that could not be resolved.
/// With the resolution disabled, none.
pub fn resolve_command_dependency_paths(command_path: &str, disable: bool, libraries: &Vec<DepLibrary>) -> (r: (Vec<String>, Vec<String>))
    ensures
        disable ==> r.0@.len() == 0 && r.1@.len() == 0,
        !disable ==> strings_view(r.0@) == dependency_paths_spec(command_path@, named_view(libraries@)),
        !disable ==> strings_view(r.1@) == unresolved_warnings(named_view(libraries@)),
{
    let mut paths: Vec<String> = Vec::new();
    let mut warnings: Vec<String> = Vec::new();
    if disable {
        return (paths, warnings);
    }
    let ghost lv = named_view(libraries@);
    paths.push(command_path.to_string());
    let mut i: usize = 0;
    proof {
        assert(lv.take(0) =~= Seq::<(Seq<char>, Seq<char>, Option<Seq<char>>)>::empty());
        assert(strings_view(paths@) =~= seq![command_path@]);
        assert(strings_view(warnings@) =~= Seq::<Seq<char>>::empty());
    }
    while i < libraries.len()
        invariant
            i <= libraries.len(),
            lv == named_view(libraries@),
            strings_view(paths@) == dependency_paths_spec(command_path@, lv.take(i as int)),
            strings_view(warnings@) == unresolved_warnings(lv.take(i as int)),
        decreases libraries.len() - i,
    {
        proof {
            assert(lv.take(i + 1).drop_last() =~= lv.take(i as int));
            assert(lv.take(i + 1).last() == lv[i as int]);
        }
        let lib = &libraries[i];
        let ghost p0 = strings_view(paths@);
        let ghost w0 = strings_view(warnings@);
        match &lib.realpath {
            Some(r) => {
                paths.push(r.clone());
                assert(strings_view(paths@) =~= p0.push(r@));
            },
            None => {
                if is_absolute(&lib.path) {
                    paths.push(lib.path.clone());
                    assert(strings_view(paths@) =~= p0.push(lib.path@));
                } else {
                    let a = concat_str("Warning: could not resolve library path for ", &lib.name);
                    let b = concat_str(&a, ": ");
                    let w = concat_str(&b, &lib.path);
                    warnings.push(w);
                    assert(strings_view(warnings@) =~= w0.push(w@));
                }
            },
        }
        i = i + 1;
    }
    assert(lv.take(libraries.len() as int) =~= lv);
    (paths, warnings)
}

} // verus!

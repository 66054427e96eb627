use island::dependency_tree::{
    collect_extra_library_paths, count_found, has_unresolved, resolve_command_dependency_paths, DepLibrary, DepTree,
    DependencyPasses, PassDecision,
};

fn lib(name: &str, path: &str, realpath: Option<&str>, rpath: &[&str]) -> DepLibrary {
    DepLibrary {
        name: name.to_string(),
        path: path.to_string(),
        realpath: realpath.map(|s| s.to_string()),
        rpath: rpath.iter().map(|s| s.to_string()).collect(),
    }
}

#[test]
fn extra_library_paths_are_sorted_and_absolute() {
    let tree = DepTree {
        rpath: vec!["/opt/app/lib".to_string(), "relative".to_string()],
        libraries: vec![
            lib("libz.so.1", "/usr/lib/libz.so.1", Some("/usr/lib/x86_64/libz.so.1.3"), &["/nix/store/a/lib"]),
            lib("libq.so", "libq.so", None, &[]),
            lib("libm.so.6", "/lib/libm.so.6", None, &["/opt/app/lib/"]),
        ],
    };
    assert_eq!(
        collect_extra_library_paths(&tree),
        vec!["/lib", "/nix/store/a/lib", "/opt/app/lib", "/usr/lib/x86_64"]
    );
    assert!(has_unresolved(&tree));
    assert_eq!(count_found(&tree), 1);
}

#[test]
fn passes_stop_without_unresolved_libraries() {
    let tree = DepTree { rpath: vec![], libraries: vec![lib("a", "/a", Some("/a"), &[])] };
    let mut passes = DependencyPasses::new();
    assert!(matches!(passes.next(&tree), PassDecision::Stop));
}

#[test]
fn passes_go_on_while_they_make_progress() {
    let first = DepTree {
        rpath: vec![],
        libraries: vec![lib("a", "/x/a", Some("/x/a"), &["/y"]), lib("b", "b", None, &[])],
    };
    let mut passes = DependencyPasses::new();
    match passes.next(&first) {
        PassDecision::Reanalyze(p) => assert_eq!(p, vec!["/x", "/y"]),
        PassDecision::Stop => panic!("an unresolved library calls for another pass"),
    }
    // No progress: stop with this tree.
    assert!(matches!(passes.next(&first), PassDecision::Stop));

    let mut passes = DependencyPasses::new();
    let second = DepTree {
        rpath: vec![],
        libraries: vec![
            lib("a", "/x/a", Some("/x/a"), &[]),
            lib("b", "/y/b", Some("/y/b"), &["/z"]),
            lib("c", "c", None, &[]),
        ],
    };
    passes.next(&first);
    match passes.next(&second) {
        PassDecision::Reanalyze(p) => assert_eq!(p, vec!["/x", "/y", "/z"]),
        PassDecision::Stop => panic!("progress was made"),
    }
}

#[test]
fn passes_are_bounded() {
    let mut passes = DependencyPasses::new();
    let mut decisions = 0;
    for n in 1..10 {
        let mut libraries: Vec<DepLibrary> = (0..n).map(|i| lib("l", &format!("/l{}", i), Some(&format!("/l{}", i)), &[])).collect();
        libraries.push(lib("missing", "missing", None, &[]));
        let tree = DepTree { rpath: vec![], libraries };
        match passes.next(&tree) {
            PassDecision::Reanalyze(_) => decisions += 1,
            PassDecision::Stop => break,
        }
    }
    assert_eq!(decisions, 3);
}

#[test]
fn command_dependency_paths() {
    let libs = vec![
        lib("libc.so.6", "/lib/libc.so.6", Some("/usr/lib/libc.so.6"), &[]),
        lib("libabs.so", "/opt/libabs.so", None, &[]),
        lib("libnone.so", "libnone.so", None, &[]),
    ];
    let (paths, warnings) = resolve_command_dependency_paths("/usr/bin/app", false, &libs);
    assert_eq!(paths, vec!["/usr/bin/app", "/usr/lib/libc.so.6", "/opt/libabs.so"]);
    assert_eq!(warnings, vec!["Warning: could not resolve library path for libnone.so: libnone.so"]);
    let (paths, warnings) = resolve_command_dependency_paths("/usr/bin/app", true, &libs);
    assert!(paths.is_empty() && warnings.is_empty());
}

use island::context::{ContextEntry, ContextSet, InsertResult, Precedence};

fn entry(p: Option<&str>) -> ContextEntry {
    ContextEntry { when_beneath: p.map(|s| s.to_string()) }
}

#[test]
fn test_insert_when_beneath() {
    let mut ctx_set = ContextSet::default();

    let ctx_empty = entry(None);
    assert_eq!(ctx_set.insert(ctx_empty.clone()), InsertResult::Swapped(vec![]));
    let mut ctx_iter = ctx_set.iter();
    assert_eq!(ctx_iter.next(), Some(&ctx_empty));
    assert_eq!(ctx_iter.next(), None);
    drop(ctx_iter);

    // Insert the same value.
    assert_eq!(ctx_set.insert(ctx_empty.clone()), InsertResult::IgnoredEqual(ctx_empty.clone()));
    let mut ctx_iter = ctx_set.iter();
    assert_eq!(ctx_iter.next(), Some(&ctx_empty));
    assert_eq!(ctx_iter.next(), None);
    drop(ctx_iter);

    // Insert a value that supersedes the previous one.
    let ctx_foo_b = entry(Some("/foo/b"));
    assert_eq!(ctx_set.insert(ctx_foo_b.clone()), InsertResult::Swapped(vec![ctx_empty.clone()]));
    let mut ctx_iter = ctx_set.iter();
    assert_eq!(ctx_iter.next(), Some(&ctx_foo_b));
    assert_eq!(ctx_iter.next(), None);
    drop(ctx_iter);

    // Insert a sibling value, that should be ordered before the previous one.
    let ctx_foo_a = entry(Some("/foo/a"));
    assert_eq!(ctx_set.insert(ctx_foo_a.clone()), InsertResult::Swapped(vec![]));
    let mut ctx_iter = ctx_set.iter();
    assert_eq!(ctx_iter.next(), Some(&ctx_foo_a));
    assert_eq!(ctx_iter.next(), Some(&ctx_foo_b));
    assert_eq!(ctx_iter.next(), None);
    drop(ctx_iter);

    // Insert again an empty context.
    assert_eq!(ctx_set.insert(ctx_empty.clone()), InsertResult::IgnoredSubset(ctx_empty.clone()));
    let mut ctx_iter = ctx_set.iter();
    assert_eq!(ctx_iter.next(), Some(&ctx_foo_a));
    assert_eq!(ctx_iter.next(), Some(&ctx_foo_b));
    assert_eq!(ctx_iter.next(), None);
    drop(ctx_iter);

    // Insert a value that supersedes the previous one.
    let ctx_foo = entry(Some("/foo"));
    assert_eq!(
        ctx_set.insert(ctx_foo.clone()),
        InsertResult::Swapped(vec![ctx_foo_a.clone(), ctx_foo_b.clone()])
    );
    let mut ctx_iter = ctx_set.iter();
    assert_eq!(ctx_iter.next(), Some(&ctx_foo));
    assert_eq!(ctx_iter.next(), None);
    drop(ctx_iter);

    // Insert again a superseded when_beneath.
    assert_eq!(ctx_set.insert(ctx_foo_a.clone()), InsertResult::IgnoredSubset(ctx_foo_a.clone()));
    let mut ctx_iter = ctx_set.iter();
    assert_eq!(ctx_iter.next(), Some(&ctx_foo));
    assert_eq!(ctx_iter.next(), None);
    drop(ctx_iter);

    // Insert a duplicated value with when_beneath.
    assert_eq!(ctx_set.insert(ctx_foo.clone()), InsertResult::IgnoredEqual(ctx_foo.clone()));
    let mut ctx_iter = ctx_set.iter();
    assert_eq!(ctx_iter.next(), Some(&ctx_foo));
    assert_eq!(ctx_iter.next(), None);
    drop(ctx_iter);

    // Insert context for /bar .
    let ctx_bar = entry(Some("/bar"));
    assert_eq!(ctx_set.insert(ctx_bar.clone()), InsertResult::Swapped(vec![]));
    let mut ctx_iter = ctx_set.iter();
    assert_eq!(ctx_iter.next(), Some(&ctx_bar));
    assert_eq!(ctx_iter.next(), Some(&ctx_foo));
    assert_eq!(ctx_iter.next(), None);
    drop(ctx_iter);

    // Insert a when_beneath superseded value.
    assert_eq!(ctx_set.insert(ctx_foo_a.clone()), InsertResult::IgnoredSubset(ctx_foo_a.clone()));
    let mut ctx_iter = ctx_set.iter();
    assert_eq!(ctx_iter.next(), Some(&ctx_bar));
    assert_eq!(ctx_iter.next(), Some(&ctx_foo));
    assert_eq!(ctx_iter.next(), None);
    drop(ctx_iter);
}

#[test]
fn test_compare_precedence() {
    let ctx1 = entry(None);
    let ctx2 = entry(None);
    assert_eq!(ctx1.compare_precedence(&ctx2), Precedence::RemoveOne);
    assert_eq!(ctx2.compare_precedence(&ctx1), Precedence::RemoveOne);

    let ctx1 = entry(Some("/foo"));
    let ctx2 = entry(None);
    assert_eq!(ctx1.compare_precedence(&ctx2), Precedence::RemoveOther);
    assert_eq!(ctx2.compare_precedence(&ctx1), Precedence::RemoveSelf);

    assert_eq!(ctx1.compare_precedence(&ctx1), Precedence::RemoveOne);
    assert_eq!(ctx2.compare_precedence(&ctx2), Precedence::RemoveOne);

    let ctx1 = entry(Some("/foo"));
    let ctx2 = entry(Some("/bar"));
    assert_eq!(ctx1.compare_precedence(&ctx2), Precedence::KeepBoth);
    assert_eq!(ctx2.compare_precedence(&ctx1), Precedence::KeepBoth);

    assert_eq!(ctx1.compare_precedence(&ctx1), Precedence::RemoveOne);
    assert_eq!(ctx2.compare_precedence(&ctx2), Precedence::RemoveOne);

    let ctx1 = entry(Some("/foo"));
    let ctx2 = entry(Some("/foo/bar"));
    assert_eq!(ctx1.compare_precedence(&ctx2), Precedence::RemoveOther);
    assert_eq!(ctx2.compare_precedence(&ctx1), Precedence::RemoveSelf);

    assert_eq!(ctx1.compare_precedence(&ctx1), Precedence::RemoveOne);
    assert_eq!(ctx2.compare_precedence(&ctx2), Precedence::RemoveOne);

    let ctx1 = entry(Some("/foo"));
    let ctx2 = entry(Some("/foo"));
    assert_eq!(ctx1.compare_precedence(&ctx1), Precedence::RemoveOne);
    assert_eq!(ctx2.compare_precedence(&ctx2), Precedence::RemoveOne);
}

#[test]
fn precedence_of_nested_paths_ignores_separator_spelling() {
    // "/foo/" and "/foo" name the same directory.
    let a = entry(Some("/foo/"));
    let b = entry(Some("/foo"));
    assert_eq!(a.compare_precedence(&b), Precedence::RemoveOne);
    // "/foobar" is not beneath "/foo".
    let c = entry(Some("/foobar"));
    assert_eq!(c.compare_precedence(&b), Precedence::KeepBoth);
}

#[test]
fn insert_warnings_name_the_profile() {
    let mut set = ContextSet::new();
    assert_eq!(set.insert(entry(Some("/foo"))).warning("p"), None);
    assert_eq!(
        set.insert(entry(Some("/foo"))).warning("p"),
        Some("profile \"p\" has duplicate contexts: ignoring ContextEntry { when_beneath: Some(\"/foo\") }".to_string())
    );
    assert_eq!(
        set.insert(entry(Some("/foo/a"))).warning("p"),
        Some("profile \"p\" has overlapping contexts: ignoring ContextEntry { when_beneath: Some(\"/foo/a\") }".to_string())
    );
    let mut set = ContextSet::new();
    set.insert(entry(Some("/foo/a")));
    set.insert(entry(Some("/foo/b")));
    assert_eq!(
        set.insert(entry(Some("/foo"))).warning("q"),
        Some(
            "profile \"q\" has overlapping contexts: kept the more specific one and removed {ContextEntry { when_beneath: Some(\"/foo/a\") }, ContextEntry { when_beneath: Some(\"/foo/b\") }}"
                .to_string()
        )
    );
    assert_eq!(set.len(), 1);
}

#[test]
fn inserting_a_broader_context_swaps_out_exactly_what_it_covers() {
    let mut set = ContextSet::new();
    set.insert(entry(Some("/x/1")));
    set.insert(entry(Some("/x/2")));
    set.insert(entry(Some("/y")));
    match set.insert(entry(Some("/x"))) {
        InsertResult::Swapped(removed) => {
            assert_eq!(removed, vec![entry(Some("/x/1")), entry(Some("/x/2"))]);
        }
        other => panic!("unexpected outcome {:?}", other),
    }
    assert_eq!(set.entries().to_vec(), vec![entry(Some("/x")), entry(Some("/y"))]);
    assert!(matches!(set.insert(entry(Some("/x/3"))), InsertResult::IgnoredSubset(_)));
    assert!(matches!(set.insert(entry(Some("/x/"))), InsertResult::IgnoredEqual(_)));
    assert_eq!(set.len(), 2);
}

#[test]
fn warnings_print_context_paths_as_paths() {
    let mut set = ContextSet::new();
    set.insert(entry(Some("/it's")));
    assert_eq!(
        set.insert(entry(Some("/it's"))).warning("p"),
        Some("profile \"p\" has duplicate contexts: ignoring ContextEntry { when_beneath: Some(\"/it's\") }".to_string())
    );
}

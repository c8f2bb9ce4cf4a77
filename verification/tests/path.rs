use nocompile::path::lexical_join;

#[test]
fn folds_parent_components() {
    assert_eq!(lexical_join("/w/crate", ".."), "/w");
    assert_eq!(lexical_join("/w/crate", "../other"), "/w/other");
    assert_eq!(lexical_join("/w", "./tests/ui"), "/w/tests/ui");
}

#[test]
fn keeps_absolute_paths() {
    assert_eq!(lexical_join("/w", "/elsewhere"), "/elsewhere");
}

/// An absolute path is folded too. Cargo reports `/a/b/../c` as `/a/c`, so
/// leaving the `..` in would be leaving the mismatch in.
#[test]
fn folds_an_absolute_path_it_was_handed() {
    assert_eq!(lexical_join("/w", "/a/b/../c"), "/a/c");
}

/// A `..` with nothing to cancel is kept rather than dropped: dropping it
/// would silently point at a different directory.
#[test]
fn keeps_a_parent_component_it_cannot_cancel() {
    assert_eq!(lexical_join("", "../a"), "../a");
}

/// A `..` that reaches the root is absorbed by it. Leaving `/..` in would
/// leave exactly the kind of unfolded parent this exists to remove: cargo
/// resolves `/..` to `/` and would answer with a path that no longer
/// compares equal.
#[test]
fn a_parent_component_stops_at_the_root() {
    assert_eq!(lexical_join("/", ".."), "/");
    assert_eq!(lexical_join("/a", "../.."), "/");
    assert_eq!(lexical_join("/a", "../../b"), "/b");
}

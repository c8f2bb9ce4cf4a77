use std::path::Path;

use nocompile::environment::Environment;
use nocompile::scratch::{bin_names, manifest, toml_key, Dependency, Layout};

/// A process that says nothing about itself.
fn bare() -> Environment {
    Environment {
        overwrite: None,
        cargo_home: None,
        home: None,
        target_dir: None,
        current_dir: None,
        ancestors: Vec::new(),
        variables: Vec::new(),
    }
}

#[test]
fn the_empty_workspace_table_is_present() {
    let m = manifest("2021", &[], &[], &[]);
    assert!(m.contains("\n[workspace]\n"), "{m}");
}

#[test]
fn declares_one_bin_target_per_fixture() {
    let m = manifest("2021", &[], &[], &["f_a".into(), "f_b".into()]);
    assert!(
        m.contains("[[bin]]\nname = \"f_a\"\npath = \"src/bin/f_a.rs\"\n"),
        "{m}"
    );
    assert!(
        m.contains("[[bin]]\nname = \"f_b\"\npath = \"src/bin/f_b.rs\"\n"),
        "{m}"
    );
}

#[test]
fn disables_bin_auto_discovery() {
    // Or a fixture left behind by a longer earlier run would be compiled as
    // part of this one.
    let m = manifest("2021", &[], &[], &[]);
    assert!(m.contains("autobins = false\n"), "{m}");
}

#[test]
fn bin_names_come_from_the_fixture_path() {
    assert_eq!(
        bin_names(&["tests/ui/a.rs".into(), "tests/ui/b-c.rs".into()]),
        vec!["f_tests_ui_a".to_string(), "f_tests_ui_b_c".to_string()]
    );
}

#[test]
fn bin_names_are_unique_even_when_paths_sanitize_alike() {
    // `a/b.rs` and `a_b.rs` both reduce to the same text.
    assert_eq!(
        bin_names(&["a/b.rs".into(), "a_b.rs".into(), "a-b.rs".into()]),
        vec![
            "f_a_b".to_string(),
            "f_a_b_2".to_string(),
            "f_a_b_3".to_string()
        ]
    );
}

#[test]
fn writes_path_dependencies() {
    let m = manifest(
        "2024",
        &[Dependency {
            name: "my-crate".into(),
            path: "/w/my-crate".into(),
        }],
        &[],
        &[],
    );
    assert!(m.contains("my-crate = { path = \"/w/my-crate\" }\n"), "{m}");
    assert!(m.contains("edition = \"2024\"\n"), "{m}");
}

#[test]
fn appends_raw_manifest_lines() {
    let m = manifest("2021", &[], &["[features]\nfoo = []".to_string()], &[]);
    assert!(m.ends_with("\n[features]\nfoo = []\n"), "{m}");
}

#[test]
fn escapes_paths_that_need_it() {
    let m = manifest(
        "2021",
        &[Dependency {
            name: "c".into(),
            path: "/a\"b\\c".into(),
        }],
        &[],
        &[],
    );
    assert!(m.contains(r#"c = { path = "/a\"b\\c" }"#), "{m}");
}

#[test]
fn quotes_keys_that_are_not_bare() {
    assert_eq!(toml_key("my-crate"), "my-crate");
    assert_eq!(toml_key("my.crate"), "\"my.crate\"");
}

#[test]
fn layout_separates_the_project_from_its_target_dir() {
    let l = Layout::new("/w", "host", &bare());
    assert_eq!(Path::new(&l.project), Path::new(&l.root).join("project"));
    assert_eq!(Path::new(&l.target), Path::new(&l.root).join("target"));
    assert!(
        Path::new(&l.project).starts_with(&l.root) && Path::new(&l.target).starts_with(&l.root)
    );
    assert_ne!(l.project, l.target);
}

#[test]
fn layout_keeps_the_package_name_to_one_component() {
    let l = Layout::new("/w", "a/b c", &bare());
    assert!(Path::new(&l.root).ends_with("a_b_c"), "{}", l.root);
}

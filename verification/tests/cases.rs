use nocompile::cases::{golden_path, relative_to, Entry, TestCases};
use nocompile::environment::Environment;

/// A process that says nothing about itself.
fn bare() -> Environment {
    Environment {
        overwrite: None,
        cargo_home: None,
        home: None,
        target_dir: None,
        current_dir: None,
        ancestors: Vec::new(),
        variables: Vec::new(),
    }
}

#[test]
fn the_golden_sits_beside_the_fixture() {
    assert_eq!(golden_path("tests/ui/a.rs"), "tests/ui/a.stderr");
}

#[test]
fn relative_to_uses_forward_slashes() {
    assert_eq!(
        relative_to("/w", "/w/tests/ui/a.rs"),
        "tests/ui/a.rs"
    );
}

#[test]
fn relative_to_keeps_paths_outside_the_base_whole() {
    assert_eq!(relative_to("/w", "/x/a.rs"), "/x/a.rs");
}

#[test]
fn dir_registration_records_a_readable_error_rather_than_panicking() {
    let mut t = TestCases::new("/nonexistent-base", "host");
    t.compile_fail_dir("tests/ui", Err("No such file or directory".to_string()));
    let env = bare();
    let outcome = t.run(&env).outcome().expect("nothing left to do");
    assert!(!outcome.is_success());
    assert!(
        outcome
            .report()
            .contains("could not read the fixture directory tests/ui"),
        "{}",
        outcome.report()
    );
}

#[test]
fn fixtures_are_registered_in_file_name_order() {
    let listing = ["c.rs", "a.rs", "b.rs", "ignored.txt"]
        .iter()
        .map(|name| {
            Ok(Entry {
                path: format!("/base/ui/{name}"),
                is_file: true,
            })
        })
        .collect();
    let mut t = TestCases::new("/base", "host");
    t.compile_fail_dir("ui", Ok(listing));
    let names: Vec<&str> = t.cases.iter().map(|c| c.relative.as_str()).collect();
    assert_eq!(names, ["ui/a.rs", "ui/b.rs", "ui/c.rs"]);
}

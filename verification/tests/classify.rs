use nocompile::classify::{classify, ClassifyError};

fn kept(stderr: &str) -> String {
    classify(stderr).expect("should classify")
}

const DIAGNOSTIC: &str = "\
error[E0308]: mismatched types
 --> src/main.rs:2:17
  |
2 |     let x: u8 = \"s\";
  |            --   ^^^ expected `u8`, found `&str`
  |
";

#[test]
fn keeps_a_diagnostic_and_its_indented_body() {
    assert_eq!(kept(DIAGNOSTIC), DIAGNOSTIC.trim_end());
}

#[test]
fn keeps_snippet_rows_whose_line_number_sits_in_column_zero() {
    let stderr = "\
error[E0080]: evaluation panicked
 --> src/main.rs:3:1
  |
3 | const _: () = assert!(false);
  | ^^^^^^^^^^^^^^^^^^^^^^^^^^^^
...
9 |     more();
  |
";
    assert_eq!(kept(stderr), stderr.trim_end());
}

#[test]
fn a_bare_column_zero_number_is_still_unrecognized() {
    let err = classify("error: x\n42 not a gutter\n").unwrap_err();
    assert!(matches!(err, ClassifyError::Unrecognized(_)), "{err:?}");
}

#[test]
fn an_unrecognized_column_zero_line_is_a_hard_error() {
    let err = classify("Compiling nocompile-scratch v0.0.0\n").unwrap_err();
    let ClassifyError::Unrecognized(line) = err else {
        panic!("expected Unrecognized, got {err:?}");
    };
    assert_eq!(line, "Compiling nocompile-scratch v0.0.0");
}

#[test]
fn drops_indented_status_lines_with_no_block_open() {
    let stderr = "    Blocking waiting for file lock on build directory\nerror: oh no\n";
    assert_eq!(kept(stderr), "error: oh no");
}

#[test]
fn empty_stderr_classifies_to_nothing() {
    assert_eq!(kept(""), "");
}

// --- Summaries and footers, which have no span -------------------------

#[test]
fn drops_the_cargo_compile_summary() {
    let stderr = format!(
        "{DIAGNOSTIC}\nerror: aborting due to 1 previous error\n\n\
             error: could not compile `nocompile-scratch` (bin \"fixture\") due to 1 previous error\n"
    );
    assert_eq!(kept(&stderr), DIAGNOSTIC.trim_end());
}

#[test]
fn drops_the_cargo_warning_summary() {
    let stderr = "\
warning: unused variable: `x`
 --> src/main.rs:2:9

warning: `nocompile-scratch` (bin \"fixture\") generated 1 warning
";
    assert_eq!(
        kept(stderr),
        "warning: unused variable: `x`\n --> src/main.rs:2:9"
    );
}

#[test]
fn drops_the_rustc_warning_count() {
    let stderr = "warning: unused variable: `x`\nwarning: 1 warning emitted\n";
    assert_eq!(kept(stderr), "warning: unused variable: `x`");
}

#[test]
fn drops_the_rustc_explain_footer() {
    let stderr = format!(
        "{DIAGNOSTIC}\nFor more information about this error, try `rustc --explain E0308`.\n"
    );
    assert_eq!(kept(&stderr), DIAGNOSTIC.trim_end());
}

#[test]
fn drops_the_multi_error_explain_footer() {
    let stderr = "error: x\nSome errors have detailed explanations: E0308, E0433.\n";
    assert_eq!(kept(stderr), "error: x");
}

#[test]
fn a_dropped_blocks_body_goes_with_it() {
    let stderr = "\
error: could not compile `nocompile-scratch` (bin \"fixture\") due to 1 previous error
  this line belongs to the summary
error: kept
";
    assert_eq!(kept(stderr), "error: kept");
}

// --- A fixture's own diagnostic must never be mistaken for a summary ----
//
// A derive is free to phrase its `compile_error!` however it likes. These
// are the wordings that a message-text match would swallow, deleting the
// invariant under test from its own golden.

#[test]
fn keeps_a_fixture_error_worded_like_an_abort_summary() {
    let stderr = "\
error: aborting due to a shape this derive cannot support
 --> src/main.rs:1:1
  |
1 | #[derive(Codec)]
  | ^^^^^^^^^^^^^^^^
";
    assert_eq!(kept(stderr), stderr.trim_end());
}

#[test]
fn keeps_a_fixture_error_worded_like_a_cargo_failure() {
    let stderr = "\
error: failed to parse the codec attribute: expected a literal
 --> src/main.rs:1:10
  |
1 | #[derive(Codec)]
  |          ^^^^^
";
    assert_eq!(kept(stderr), stderr.trim_end());
}

#[test]
fn keeps_a_rustc_error_worded_like_a_cargo_failure() {
    // `include!` of a missing file. Genuine rustc, genuine span.
    let stderr = "\
error: couldn't read `src/nope.rs`: No such file or directory
 --> src/main.rs:1:1
  |
1 | include!(\"nope.rs\");
  | ^^^^^^^^^^^^^^^^^^^
";
    assert_eq!(kept(stderr), stderr.trim_end());
}

#[test]
fn keeps_a_summary_worded_block_that_carries_a_span() {
    let stderr = "\
error: could not compile `something` due to a reason
 --> src/main.rs:1:1
";
    assert_eq!(kept(stderr), stderr.trim_end());
}

#[test]
fn an_abort_summary_needs_a_count_to_be_dropped() {
    // The real thing counts; a fixture's prose does not.
    assert_eq!(kept("error: aborting due to 2 previous errors\n"), "");
    assert_eq!(
        kept("error: aborting due to the union above\n"),
        "error: aborting due to the union above"
    );
}

// --- Cargo's own failures ----------------------------------------------

#[test]
fn a_failure_to_run_rustc_is_a_cargo_failure_with_its_chain() {
    let stderr = "\
error: could not compile `nocompile-scratch` (bin \"fixture\")

Caused by:
  process didn't exit successfully: `rustc ...` (exit status: 1)
";
    let err = classify(stderr).unwrap_err();
    let ClassifyError::Cargo(message) = err else {
        panic!("expected Cargo, got {err:?}");
    };
    assert!(message.contains("Caused by:"), "{message}");
    assert!(message.contains("exit status: 1"), "{message}");
}

#[test]
fn cargo_resolution_failures_are_not_diagnostics() {
    let err = classify("error: failed to select a version for `x`\n").unwrap_err();
    let ClassifyError::Cargo(message) = err else {
        panic!("expected Cargo, got {err:?}");
    };
    assert_eq!(message, "error: failed to select a version for `x`");
}

#[test]
fn an_error_against_the_generated_manifest_is_a_cargo_failure() {
    let stderr = "\
error: key with no value, expected `=`
  --> Cargo.toml:16:6
   |
16 | this is not valid toml [[[
";
    let err = classify(stderr).unwrap_err();
    let ClassifyError::Cargo(message) = err else {
        panic!("expected Cargo, got {err:?}");
    };
    assert!(message.contains("expected `=`"), "{message}");
}

#[test]
fn a_manifest_warning_is_left_to_the_golden() {
    let stderr = "warning: unused manifest key: package.foo\n --> Cargo.toml:5:1\n";
    assert_eq!(kept(stderr), stderr.trim_end());
}

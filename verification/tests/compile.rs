use nocompile::compile::{absorb, ingest, Build};
use nocompile::json;

const OURS: &str = "/scratch/Cargo.toml";

fn empty() -> Build {
    Build::new(String::new())
}

/// Feed `build` one cargo message written the way cargo writes it.
fn feed(build: &mut Build, line: &str) {
    let message = json::parse(line).expect("valid cargo json");
    absorb(build, &message, OURS);
}

fn message(manifest: &str, target: &str, level: &str, rendered: &str) -> String {
    // The newlines in a rendered diagnostic are `\n` escapes on the wire.
    let rendered = rendered.replace('\n', "\\n");
    format!(
        r#"{{"reason":"compiler-message","manifest_path":"{manifest}","target":{{"name":"{target}"}},"message":{{"level":"{level}","rendered":"{rendered}"}}}}"#
    )
}

fn artifact(manifest: &str, target: &str) -> String {
    format!(
        r#"{{"reason":"compiler-artifact","manifest_path":"{manifest}","target":{{"name":"{target}"}}}}"#
    )
}

#[test]
fn files_a_diagnostic_under_its_own_target() {
    let mut build = empty();
    feed(&mut build, &message(OURS, "f_a", "error", "error: one\n"));
    feed(&mut build, &message(OURS, "f_b", "error", "error: two\n"));
    feed(
        &mut build,
        &message(OURS, "f_a", "warning", "warning: three\n"),
    );

    assert_eq!(build.diagnostics("f_a"), "error: one\nwarning: three\n");
    assert_eq!(build.diagnostics("f_b"), "error: two\n");
    assert_eq!(build.diagnostics("f_missing"), "");
}

#[test]
fn drops_the_explain_footer() {
    // `For more information about this error...` is about the run, not the
    // code, and would otherwise be blessed into every golden.
    let mut build = empty();
    feed(
        &mut build,
        &message(OURS, "f_a", "failure-note", "For more information...\n"),
    );
    assert_eq!(build.diagnostics("f_a"), "");
}

#[test]
fn an_artifact_is_what_proves_a_target_compiled() {
    let mut build = empty();
    feed(&mut build, &artifact(OURS, "f_a"));
    assert!(build.compiled("f_a"));
    // Not merely "produced no errors": a target cargo never reached also
    // produces none.
    assert!(!build.compiled("f_b"));
}

/// Target names are not a namespace. A declared dependency is free to be
/// called the same thing as a generated bin, and its artifact must not stand
/// as proof that the fixture compiled -- that would pass a `pass` fixture
/// that never built, and report a `compile_fail` fixture as compiling.
#[test]
fn another_packages_artifact_is_not_evidence_about_a_fixture() {
    let mut build = empty();
    feed(&mut build, &artifact("/elsewhere/Cargo.toml", "f_a"));
    assert!(!build.compiled("f_a"));
}

/// Cargo forwards anything a proc macro prints to stdout into this stream.
#[test]
fn a_forged_artifact_without_our_manifest_is_ignored() {
    let mut build = empty();
    feed(
        &mut build,
        r#"{"reason":"compiler-artifact","target":{"name":"f_a"}}"#,
    );
    assert!(!build.compiled("f_a"));
}

#[test]
fn another_packages_diagnostic_does_not_reach_a_fixture() {
    let mut build = empty();
    feed(
        &mut build,
        &message("/elsewhere/Cargo.toml", "helper", "error", "error: dep\n"),
    );
    assert_eq!(build.diagnostics("helper"), "");
}

/// A dependency that will not build leaves every fixture with nothing. Its
/// errors are the only description of what actually happened.
#[test]
fn a_dependency_failure_is_reported_rather_than_discarded() {
    let mut build = empty();
    feed(
        &mut build,
        &message("/elsewhere/Cargo.toml", "helper", "error", "error: dep\n"),
    );
    assert_eq!(build.nothing_built().as_deref(), Some("error: dep"));
}

/// Nothing built and no other package to blame is not a failure of the run:
/// it is every fixture failing with diagnostics cargo suppressed, and it is
/// reported on each fixture, where the reader can act on it.
#[test]
fn nothing_built_stays_quiet_when_no_other_package_explains_it() {
    let mut build = empty();
    build.stderr = "error: could not compile `scratch` (bin \"f_a\")\n".to_string();
    assert_eq!(build.nothing_built(), None);
}

#[test]
fn nothing_built_stays_quiet_when_something_was() {
    let mut build = empty();
    feed(
        &mut build,
        &message("/elsewhere/Cargo.toml", "helper", "error", "error: dep\n"),
    );
    feed(&mut build, &message(OURS, "f_a", "error", "error: mine\n"));
    assert_eq!(build.nothing_built(), None);

    let mut build = empty();
    feed(&mut build, &artifact(OURS, "f_a"));
    assert_eq!(build.nothing_built(), None);
}

#[test]
fn build_finished_is_what_says_cargo_got_that_far() {
    let mut build = empty();
    assert!(!build.started);
    feed(&mut build, r#"{"reason":"build-finished","success":false}"#);
    assert!(build.started);
}

#[test]
fn unknown_reasons_are_ignored() {
    let mut build = empty();
    feed(&mut build, r#"{"reason":"build-script-executed"}"#);
    feed(&mut build, r#"{"no-reason-at-all":1}"#);
    assert!(build.messages.is_empty() && build.compiled.is_empty());
}

/// Attribution compares manifest paths textually, so two spellings of one
/// file detach every message from every fixture at once.
#[test]
fn one_manifest_under_two_spellings_is_recognized() {
    let ours = "/w/mismatch/project/Cargo.toml";
    // The same file by a path cargo would fold away.
    let theirs = "/w/mismatch/project/../project/Cargo.toml";

    let mut build = empty();
    let line = message(theirs, "f_a", "error", "error: x\n");
    let parsed = json::parse(&line).expect("valid cargo json");
    absorb(&mut build, &parsed, ours);

    assert_eq!(build.suspects(), [theirs]);
    let (handed, reported) = build
        .manifest_mismatch(ours, &vec![true])
        .expect("a mismatch");
    assert_eq!(handed, ours);
    assert_eq!(reported, theirs);
}

/// The mismatch is a claim about *our* manifest, so a package that really is
/// somewhere else must not be mistaken for one. Otherwise a dependency that
/// fails to build -- the case `nothing_built` exists for -- would be
/// reported as a harness bug.
#[test]
fn another_packages_manifest_is_not_a_mismatch() {
    let ours = OURS;
    let mut build = empty();
    feed(
        &mut build,
        &message("/elsewhere/Cargo.toml", "dep", "error", "e\n"),
    );
    assert_eq!(build.manifest_mismatch(ours, &vec![false]), None);
}

/// Anything attributed at all rules the mismatch out: a single spelling
/// difference detaches everything, so a run with attributed messages cannot
/// be one.
#[test]
fn a_mismatch_is_not_claimed_when_something_was_attributed() {
    let ours = "/w/attributed/project/Cargo.toml";
    let theirs = "/w/attributed/project/../project/Cargo.toml";

    let mut build = empty();
    for line in [
        message(theirs, "f_a", "error", "error: x\n"),
        message(ours, "f_b", "error", "error: y\n"),
    ] {
        let parsed = json::parse(&line).expect("valid cargo json");
        absorb(&mut build, &parsed, ours);
    }
    assert!(build.suspects().is_empty());
    assert_eq!(build.manifest_mismatch(ours, &vec![true]), None);
}

/// Cargo forwards anything a proc macro prints to stdout into this stream.
/// Those lines are not cargo's JSON and are skipped, which is right: a
/// `println!` left in a derive has nothing to do with the fixtures, and the
/// messages around it are still read.
#[test]
fn a_line_that_is_not_cargos_json_is_skipped() {
    let mut build = empty();
    let stdout = format!(
        "debugging my derive\n{}\nnoise: {{not a message\n",
        message(OURS, "f_a", "error", "error: x\n")
    );
    ingest(&mut build, &stdout, OURS).expect("cargo json still parses");
    assert_eq!(build.diagnostics("f_a"), "error: x\n");
}

/// Skipping a whole line is only safe while cargo keeps its own messages on
/// lines of their own, which cargo does not document. Cargo 1.98 terminates
/// forwarded output that has no trailing newline, so this does not arise --
/// but a diagnostic silently missing from a golden is what it would cost,
/// which is too quiet a failure to leave to an undocumented behaviour
/// staying put. The message is read from where it begins instead.
#[test]
fn a_message_with_something_in_front_of_it_is_still_read() {
    let mut build = empty();
    let stdout = format!("hi{}\n", message(OURS, "f_a", "error", "error: x\n"));
    ingest(&mut build, &stdout, OURS).expect("the buried message parses");
    assert_eq!(build.diagnostics("f_a"), "error: x\n");
}

/// Recovery goes no further than "the rest of this line is a whole cargo
/// message". Anything less is ordinary output that happened to look like
/// one, and failing the run over a proc macro's debug print would be a worse
/// answer than the skip it replaced.
#[test]
fn output_that_only_resembles_a_message_is_skipped_rather_than_failing() {
    let mut build = empty();
    for line in [
        "pm debug: {\"reason\":\"compiler-message\"} and then some prose\n",
        "pm debug: {\"reason\":\n",
        "pm debug: {\"reason\":\"build-finished\",\"success\":true}\n",
    ] {
        ingest(&mut build, line, OURS).expect("not a failure of the run");
    }
    // The third line *is* a whole message, and an unknown-shaped one is
    // ignored the same way it would be at the start of a line -- but a proc
    // macro could forge one, exactly as it could by printing it unprefixed.
    // `manifest_path` is what guards attribution, here as everywhere.
    assert!(build.messages.is_empty() && build.compiled.is_empty());
}

/// The check looks for a cargo message, not for a brace, so ordinary output
/// that happens to contain JSON-ish text is still skipped quietly.
#[test]
fn other_text_that_is_not_a_message_is_still_skipped() {
    let mut build = empty();
    ingest(
        &mut build,
        "look: {\"a\":1} and {\"level\":\"error\"}\n",
        OURS,
    )
    .expect("nothing here is a cargo message");
    assert!(build.messages.is_empty());
}

/// A line that opens like a cargo message but will not parse is a different
/// matter: the alternative to failing is a silently short golden.
#[test]
fn a_broken_cargo_message_still_fails_the_run() {
    let mut build = empty();
    let error = ingest(&mut build, "{\"reason\":\n", OURS)
        .expect_err("should not be guessed at");
    assert!(
        error.to_string().contains("could not parse cargo's JSON"),
        "{error}"
    );
}

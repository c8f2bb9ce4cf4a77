//! What each failure says, and how each comes about.

use nocompile::cases::{io_failure, Entry, TestCases};
use nocompile::classify::{classify, ClassifyError};
use nocompile::compile::{arguments, needs_writing, withholds};
use nocompile::environment::Environment;
use nocompile::json::parse;
use nocompile::normalize::cargo_home;
use nocompile::run::{Reply, Request, Run};
use nocompile::scratch::{bin_name, target_dir, toml_string, Layout};
use nocompile::{CaseOutcome, Failure, Kind, Mode, OVERWRITE_VAR};

fn env() -> Environment {
    Environment {
        overwrite: None,
        cargo_home: None,
        home: None,
        target_dir: None,
        current_dir: None,
        ancestors: Vec::new(),
        variables: Vec::new(),
    }
}

fn owned(text: &str) -> String {
    text.to_string()
}

// -- JSON -------------------------------------------------------------------

#[test]
fn every_fault_of_a_document_is_named_with_its_place() {
    for (input, fault) in [
        ("", "unexpected end of input at byte 0"),
        ("  ", "unexpected end of input at byte 2"),
        ("?", "expected a value at byte 0"),
        ("é", "expected a value at byte 0"),
        ("nul", "expected `null` at byte 0"),
        ("[tru]", "expected `true` at byte 1"),
        ("fals", "expected `false` at byte 0"),
        ("1 2", "trailing content after the value at byte 2"),
        ("\"é\" x", "trailing content after the value at byte 5"),
        ("[1 2]", "expected `,` or `]` at byte 3"),
        ("{\"a\" 1}", "expected `:` at byte 5"),
        ("{\"a\":1 \"b\"}", "expected `,` or `}` at byte 7"),
        ("{a:1}", "expected `\"` at byte 1"),
        ("\"abc", "unterminated string at byte 4"),
        ("\"a\nb\"", "unescaped control character in string at byte 2"),
        ("\"\\", "unterminated escape at byte 2"),
        ("\"\\x\"", "unknown escape at byte 3"),
        ("\"\\u12", "truncated `\\u` escape at byte 3"),
        ("\"\\u12xy\"", "`\\u` escape is not four hex digits at byte 3"),
        ("\"\\ud834\"", "high surrogate without a low surrogate at byte 7"),
        (
            "\"\\ud834\\u0041\"",
            "high surrogate followed by a non-surrogate at byte 13",
        ),
        ("\"\\udd1e\"", "escape is not a character at byte 7"),
        ("-", "expected a digit at byte 1"),
        ("1.", "expected a digit after `.` at byte 2"),
        ("1e+", "expected a digit in the exponent at byte 3"),
    ] {
        let error = parse(input).expect_err(input);
        assert_eq!(error.to_string(), fault, "{input:?}");
    }
}

#[test]
fn an_escaped_character_outside_the_basic_plane_is_one_character() {
    let read = parse("\"\\u0041\\u00e9\\uFFFD\\ud834\\udd1e\"").expect("a string");
    assert_eq!(read.as_str(), Some("Aé\u{fffd}𝄞"));
}

// -- classifying ------------------------------------------------------------

#[test]
fn a_line_nobody_knows_and_a_failure_of_cargo_are_told_apart() {
    let unknown = classify("gibberish at the margin\n");
    assert!(
        matches!(unknown, Err(ClassifyError::Unrecognized(line)) if line == "gibberish at the margin")
    );
    let failed = classify("error: no matching package named `x` found\n");
    assert!(matches!(failed, Err(ClassifyError::Cargo(text)) if text.contains("no matching package")));
    assert!(matches!(classify("error: e\n --> a.rs:1:1\n"), Ok(text) if text.contains("a.rs:1:1")));
}

// -- what a failure says ----------------------------------------------------

#[test]
fn every_failure_says_what_to_do() {
    let text = |failure: Failure| failure.to_string();
    assert_eq!(
        text(Failure::Compiled),
        "expected a compile error, but the fixture compiled"
    );
    assert_eq!(
        text(Failure::DidNotCompile {
            stderr: owned("error: e\n")
        }),
        "expected the fixture to compile, but it did not:\n\nerror: e\n"
    );
    assert_eq!(
        text(Failure::MissingGolden {
            golden: owned("ui/a.stderr")
        }),
        "no golden at ui/a.stderr\nrun with NOCOMPILE=overwrite to create it, then read what it \
         captured"
    );
    assert_eq!(
        text(Failure::NoFixtures {
            directory: owned("ui")
        }),
        "no .rs fixtures in ui -- the suite would pass without testing anything"
    );
    assert_eq!(
        text(Failure::NothingRegistered),
        "no fixtures were registered -- the suite would pass without testing anything"
    );
    assert_eq!(
        text(Failure::Cargo {
            message: owned("error: no")
        }),
        "cargo could not run the fixture build:\n\nerror: no"
    );
    assert_eq!(
        text(io_failure(owned("could not do it"), owned("denied"))),
        "could not do it: denied"
    );
    let mismatch = text(Failure::ManifestMismatch {
        handed: owned("/a/../b/Cargo.toml"),
        reported: owned("/b/Cargo.toml"),
    });
    assert!(mismatch.contains(
        "\n    handed to cargo: /a/../b/Cargo.toml\n    reported back:   /b/Cargo.toml\n"
    ));
}

#[test]
fn a_failure_without_diagnostics_shows_what_there_is() {
    let text = |stderr: &str| {
        Failure::NoDiagnostics {
            stderr: owned(stderr),
        }
        .to_string()
    };
    assert!(text("").starts_with("the fixture failed to build but produced no diagnostics"));
    assert!(text("").ends_with("If that is what happened, reword the message."));
    assert_eq!(text(" \n"), text(""));
    assert!(text("error: e\n\n").ends_with("and only cargo drops it:\n\nerror: e"));
}

#[test]
fn a_mismatch_shows_where_and_how() {
    let failure = Failure::Mismatch {
        golden: owned("ui/a.stderr"),
        expected: owned("one\ntwo\n"),
        actual: owned("one\n2\n"),
        mode: Mode::Brief,
    };
    assert_eq!(
        failure.to_string(),
        "diagnostics do not match ui/a.stderr (Brief mode), first difference at line 2\n\n\
         --- expected (ui/a.stderr)\n+++ actual (actual)\n one\n-two\n+2\n\nrun with \
         NOCOMPILE=overwrite to update the golden"
    );
    // The last line feed is no line of its own.
    let same = Failure::Mismatch {
        golden: owned("g"),
        expected: owned("one\n"),
        actual: owned("one"),
        mode: Mode::Exact,
    };
    assert!(same.to_string().starts_with("diagnostics do not match g (Exact mode)\n\n"));
}

#[test]
fn a_copied_failure_says_the_same() {
    let failures = [
        Failure::Compiled,
        Failure::NothingRegistered,
        Failure::NoDiagnostics { stderr: owned("s") },
        Failure::Mismatch {
            golden: owned("g"),
            expected: owned("a\n"),
            actual: owned("b\n"),
            mode: Mode::Exact,
        },
        io_failure(owned("c"), owned("m")),
    ];
    for failure in &failures {
        assert_eq!(failure.clone().to_string(), failure.to_string());
    }
}

#[test]
fn an_outcome_knows_its_case() {
    let held = CaseOutcome::new(owned("ui/a.rs"), Kind::Pass, Ok(()));
    assert!(held.is_success() && held.failure().is_none());
    assert_eq!(held.path(), "ui/a.rs");
    assert_eq!(held.kind(), Kind::Pass);
    let failed = CaseOutcome::new(owned("ui/b.rs"), Kind::CompileFail, Err(Failure::Compiled));
    assert!(!failed.is_success());
    assert!(matches!(failed.failure(), Some(Failure::Compiled)));
    assert_eq!(failed.kind().label(), "compile_fail");
}

// -- registering ------------------------------------------------------------

#[test]
fn what_is_wrong_with_a_directory_is_kept_until_the_run() {
    let mut t = TestCases::new("/host", "host");
    t.compile_fail_dir("ui", Err(owned("denied")));
    t.pass_dir("more", Ok(vec![Err(owned("torn"))]));
    t.compile_fail_dir(
        "./none",
        Ok(vec![
            Ok(Entry {
                path: owned("/host/none/a.txt"),
                is_file: true,
            }),
            Ok(Entry {
                path: owned("/host/none/d.rs"),
                is_file: false,
            }),
        ]),
    );
    let world = env();
    let outcome = t.run(&world).outcome().expect("nothing to run");
    let said: Vec<String> = outcome
        .setup_failures()
        .iter()
        .map(|failure| failure.to_string())
        .collect();
    assert_eq!(
        said,
        [
            "could not read the fixture directory ui: denied",
            "could not read an entry of more: torn",
            "no .rs fixtures in none -- the suite would pass without testing anything",
        ]
    );
}

#[test]
fn the_variable_asks_for_blessing_in_any_case() {
    assert_eq!(OVERWRITE_VAR, "NOCOMPILE");
    let asked = |value: Option<&str>, forced: Option<bool>| {
        let mut t = TestCases::new("/host", "host");
        if let Some(forced) = forced {
            t.overwrite(forced);
        }
        let mut world = env();
        world.overwrite = value.map(owned);
        t.overwrite_requested(&world)
    };
    assert!(asked(Some("overwrite"), None));
    assert!(asked(Some("OverWrite"), None));
    assert!(!asked(Some("overwrite "), None));
    assert!(!asked(Some("1"), None));
    assert!(!asked(None, None));
    assert!(!asked(Some("overwrite"), Some(false)));
    assert!(asked(None, Some(true)));
}

// -- where things are -------------------------------------------------------

#[test]
fn the_target_directory_is_found_the_way_cargo_chose_it() {
    let mut world = env();
    assert_eq!(target_dir("/host", &world), "/host/target");
    world.ancestors = vec![
        (owned("/ws/target/debug"), false),
        (owned("/ws/target"), true),
        (owned("/ws"), true),
    ];
    assert_eq!(target_dir("/host", &world), "/ws/target");
    world.target_dir = Some(owned("../out/./t"));
    assert_eq!(target_dir("/host", &world), "out/t".replace("out", "../out"));
    world.current_dir = Some(owned("/ws/member"));
    assert_eq!(target_dir("/host", &world), "/ws/out/t");
    world.target_dir = Some(owned("/abs/x/../t"));
    assert_eq!(target_dir("/host", &world), "/abs/t");
}

#[test]
fn the_home_of_cargo_is_its_variable_or_the_convention() {
    assert_eq!(cargo_home(Some(owned("/c")), Some(owned("/h"))), Some(owned("/c")));
    assert_eq!(cargo_home(None, Some(owned("/h"))), Some(owned("/h/.cargo")));
    assert_eq!(cargo_home(None, None), None);
}

#[test]
fn cargo_is_asked_to_build_everything_offline() {
    let layout = Layout::new("/host", "host", &env());
    assert_eq!(
        arguments(&layout),
        [
            "build",
            "--bins",
            "--keep-going",
            "--message-format=json",
            "--quiet",
            "--color=never",
            "--offline",
            "--target-dir",
            "/host/target/nocompile/host/target",
            "--manifest-path",
            "/host/target/nocompile/host/project/Cargo.toml",
        ]
    );
}

#[test]
fn what_differs_between_two_shells_is_withheld() {
    for variable in [
        "RUSTFLAGS",
        "CARGO_BUILD_RUSTFLAGS",
        "CARGO_TARGET_DIR",
        "CARGO_PROFILE_DEV_DEBUG_ASSERTIONS",
        "CARGO_PROFILE_",
    ] {
        assert!(withholds(variable), "{variable}");
    }
    for variable in ["PATH", "CARGO_HOME", "CARGO_PROFILE", "rustflags", ""] {
        assert!(!withholds(variable), "{variable}");
    }
}

#[test]
fn the_build_is_handed_cleared_variables() {
    let t = suite();
    let mut world = env();
    world.variables = ["CARGO_PROFILE_DEV_OPT_LEVEL", "PATH", "RUSTFLAGS", "CARGO_ENCODED_RUSTFLAGS"]
        .map(owned)
        .to_vec();
    let Request::Build { removed, set, .. } = building(&t, &world).request() else {
        panic!("the build");
    };
    assert_eq!(removed, ["CARGO_PROFILE_DEV_OPT_LEVEL", "RUSTFLAGS"]);
    assert_eq!(set, [(owned("CARGO_ENCODED_RUSTFLAGS"), owned(""))]);
}

#[test]
fn a_file_that_already_holds_the_text_is_left_alone() {
    assert!(!needs_writing(&Some(owned("a\n")), "a\n"));
    assert!(needs_writing(&Some(owned("a")), "a\n"));
    assert!(needs_writing(&None, ""));
}

// -- runs that stop ---------------------------------------------------------

fn suite() -> TestCases {
    let mut t = TestCases::new("/host", "host");
    t.compile_fail("ui/a.rs");
    t.pass("ui/b.rs");
    t
}

/// A run that has got as far as its build.
fn building<'a>(t: &'a TestCases, world: &'a Environment) -> Run<'a> {
    t.run(world)
        .advance(Reply::Done(Ok(())))
        .advance(Reply::Done(Ok(())))
        .advance(Reply::Text(Ok(owned("a"))))
        .advance(Reply::Done(Ok(())))
        .advance(Reply::Text(Ok(owned("b"))))
        .advance(Reply::Done(Ok(())))
        .advance(Reply::Done(Ok(())))
}

fn only_failure(run: Run<'_>) -> String {
    let outcome = run.outcome().expect("a run that stopped");
    assert!(outcome.cases().is_empty());
    assert_eq!(outcome.setup_failures().len(), 1);
    outcome.setup_failures()[0].to_string()
}

fn no() -> Result<(), String> {
    Err(owned("denied"))
}

#[test]
fn whatever_cannot_be_done_stops_the_run_and_is_named() {
    let t = suite();
    let world = env();
    let root = "/host/target/nocompile/host";
    let start = || t.run(&world);
    assert_eq!(
        only_failure(start().advance(Reply::Done(no()))),
        format!("could not lock the scratch project at {root}: denied")
    );
    let locked = || start().advance(Reply::Done(Ok(())));
    assert_eq!(
        only_failure(locked().advance(Reply::Done(no()))),
        format!("could not create the scratch target directory at {root}/target: denied")
    );
    let prepared = || locked().advance(Reply::Done(Ok(())));
    assert_eq!(
        only_failure(prepared().advance(Reply::Text(Err(owned("denied"))))),
        "could not read the fixture ui/a.rs: denied"
    );
    let read = || prepared().advance(Reply::Text(Ok(owned("a"))));
    assert_eq!(
        only_failure(read().advance(Reply::Done(no()))),
        format!(
            "could not write {root}/project/src/bin/{}.rs: denied",
            bin_name("ui/a.rs")
        )
    );
    let staged = || {
        read()
            .advance(Reply::Done(Ok(())))
            .advance(Reply::Text(Ok(owned("b"))))
            .advance(Reply::Done(Ok(())))
    };
    assert_eq!(
        only_failure(staged().advance(Reply::Done(no()))),
        format!("could not write {root}/project/Cargo.toml: denied")
    );
    assert_eq!(
        only_failure(building(&t, &world).advance(Reply::Built(Err(owned("denied"))))),
        "could not run cargo for the scratch project: denied"
    );
}

#[test]
fn a_broken_message_stops_the_run() {
    let t = suite();
    let world = env();
    let run = building(&t, &world).advance(Reply::Built(Ok((owned("{\"reason\":\n"), owned("")))));
    assert_eq!(
        only_failure(run),
        "could not run cargo for the scratch project: could not parse cargo's JSON output: \
         unexpected end of input at byte 10"
    );
}

#[test]
fn cargo_not_getting_started_is_one_failure() {
    let t = suite();
    let world = env();
    let run = building(&t, &world)
        .advance(Reply::Built(Ok((owned("noise\n"), owned("error: bad manifest\n\n")))));
    assert_eq!(
        only_failure(run),
        "cargo could not run the fixture build:\n\nerror: bad manifest"
    );
}

/// One error said of another manifest, and the end of the build.
fn from_elsewhere(manifest: &str) -> String {
    format!(
        "{{\"reason\":\"compiler-message\",\"manifest_path\":{},\"target\":{{\"name\":\"x\"}},\
         \"message\":{{\"level\":\"error\",\"rendered\":\"error: dep\\n\"}}}}\n\
         {{\"reason\":\"build-finished\",\"success\":false}}\n",
        toml_string(manifest)
    )
}

#[test]
fn another_spelling_of_our_manifest_is_told_from_another_package() {
    let t = suite();
    let world = env();
    let theirs = "/private/host/target/nocompile/host/project/Cargo.toml";
    let asked = || building(&t, &world).advance(Reply::Built(Ok((from_elsewhere(theirs), owned("")))));
    let Request::SameFile { ours, others } = asked().request() else {
        panic!("the question which manifest is ours");
    };
    assert_eq!(ours, "/host/target/nocompile/host/project/Cargo.toml");
    assert_eq!(others, [theirs]);

    let yes = asked().advance(Reply::Same(vec![true]));
    let outcome = yes.outcome().expect("a run that stopped");
    assert!(matches!(
        outcome.setup_failures(),
        [Failure::ManifestMismatch { handed, reported }] if *handed == ours && reported == theirs
    ));
    let blamed = asked().advance(Reply::Same(vec![false]));
    assert_eq!(
        only_failure(blamed),
        "cargo could not run the fixture build:\n\nerror: dep"
    );
}

#[test]
fn a_golden_that_cannot_be_written_fails_its_fixture_alone() {
    let mut t = suite();
    t.overwrite(true);
    let world = env();
    let place = |path: &str| {
        format!(
            "\"manifest_path\":\"/host/target/nocompile/host/project/Cargo.toml\",\
             \"target\":{{\"name\":\"{}\"}}",
            bin_name(path)
        )
    };
    let stdout = format!(
        "{{\"reason\":\"compiler-message\",{},\"message\":{{\"level\":\"error\",\
         \"rendered\":\"error: e\\n\"}}}}\n{{\"reason\":\"compiler-artifact\",{}}}\n\
         {{\"reason\":\"build-finished\"}}\n",
        place("ui/a.rs"),
        place("ui/b.rs")
    );
    let run = building(&t, &world).advance(Reply::Built(Ok((stdout, owned("")))));
    assert!(matches!(
        run.request(),
        Request::WriteGolden { path, contents } if path == "/host/ui/a.stderr" && contents == "error: e\n"
    ));
    let outcome = run.advance(Reply::Done(no())).outcome().expect("a finished run");
    assert_eq!(outcome.cases().len(), 2);
    assert_eq!(
        outcome.cases()[0].failure().map(|failure| failure.to_string()),
        Some(owned("could not write the golden ui/a.stderr: denied"))
    );
    assert!(outcome.cases()[1].is_success());
    assert!(outcome.setup_failures().is_empty());
}

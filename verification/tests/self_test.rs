//! The harness, tested by itself.
//!
//! A test harness cannot be trusted to test itself naively: one that reports success
//! unconditionally passes its own suite. So this suite is adversarial, and most of it
//! asserts that the harness **fails**, and which failure it was.
//!
//! The world outside is a [`Sandbox`]: files in memory, and a compiler that knows the
//! fixtures below and says of each what rustc says.

use std::cell::RefCell;
use std::collections::BTreeMap;

use nocompile::cases::{Entry, Listing};
use nocompile::environment::Environment;
use nocompile::run::{Reply, Request};
use nocompile::scratch::toml_string;
use nocompile::{CaseOutcome, Failure, Mode, Outcome, TestCases};

/// Where a sandbox pretends to be.
const BASE: &str = "/sandbox/host";

/// A throwaway host crate: files in memory, and what is said of them.
struct Sandbox {
    name: String,
    files: RefCell<BTreeMap<String, String>>,
    /// How many lines the dependency `outsider` has above its code.
    above: RefCell<usize>,
}

/// What the compiler says of one fixture.
enum Verdict {
    Compiles,
    Says(Vec<(&'static str, String)>),
}

impl Sandbox {
    fn new(name: &str) -> Self {
        Sandbox {
            name: name.to_string(),
            files: RefCell::new(BTreeMap::new()),
            above: RefCell::new(0),
        }
    }

    fn write(&self, relative: &str, contents: &str) {
        self.files
            .borrow_mut()
            .insert(format!("{BASE}/{relative}"), contents.to_string());
    }

    fn has(&self, relative: &str) -> bool {
        self.files
            .borrow()
            .contains_key(&format!("{BASE}/{relative}"))
    }

    fn read(&self, relative: &str) -> String {
        self.files.borrow()[&format!("{BASE}/{relative}")].clone()
    }

    fn cases(&self) -> TestCases {
        TestCases::new(BASE, &self.name)
    }

    /// What reading a directory gives, last name first.
    fn list(&self, relative: &str) -> Listing {
        let prefix = format!("{BASE}/{relative}/");
        let files = self.files.borrow();
        let mut entries: Vec<_> = files
            .keys()
            .filter(|path| path.starts_with(&prefix) && !path[prefix.len()..].contains('/'))
            .map(|path| {
                Ok(Entry {
                    path: path.clone(),
                    is_file: true,
                })
            })
            .collect();
        entries.reverse();
        Ok(entries)
    }

    /// Run a suite in this world.
    fn run(&self, cases: &TestCases) -> Outcome {
        let env = Environment {
            overwrite: None,
            cargo_home: None,
            home: Some("/home/u".to_string()),
            target_dir: None,
            current_dir: Some(BASE.to_string()),
            ancestors: vec![
                (format!("{BASE}/target/debug/deps"), false),
                (format!("{BASE}/target/debug"), false),
                (format!("{BASE}/target"), true),
                (BASE.to_string(), false),
            ],
            variables: vec!["PATH".to_string(), "RUSTFLAGS".to_string()],
        };
        let mut run = cases.run(&env);
        loop {
            let reply = match run.request() {
                Request::Lock { .. } | Request::CreateDir { .. } => Reply::Done(Ok(())),
                Request::Read { path } => Reply::Text(
                    self.files
                        .borrow()
                        .get(&path)
                        .cloned()
                        .ok_or_else(|| "No such file or directory".to_string()),
                ),
                Request::Write { path, contents } | Request::WriteGolden { path, contents } => {
                    self.files.borrow_mut().insert(path, contents);
                    Reply::Done(Ok(()))
                }
                Request::Build {
                    arguments,
                    directory,
                    ..
                } => Reply::Built(Ok(self.cargo(&arguments, &directory))),
                Request::SameFile { others, .. } => Reply::Same(vec![false; others.len()]),
                Request::ReadGolden { path } => {
                    Reply::Golden(Ok(self.files.borrow().get(&path).cloned()))
                }
                Request::Nothing => break,
            };
            run = run.advance(reply);
        }
        run.outcome().expect("a finished run has an outcome")
    }

    /// What cargo says of the scratch project: its stdout and its stderr.
    fn cargo(&self, arguments: &[String], directory: &str) -> (String, String) {
        assert_eq!(arguments[0], "build");
        let manifest_path = arguments.last().expect("a manifest path");
        assert_eq!(*manifest_path, format!("{directory}/Cargo.toml"));
        let manifest = self.files.borrow()[manifest_path].clone();
        if manifest.contains("this is not valid toml") {
            let stderr = "error: key with no value, expected `=`\n  --> Cargo.toml:16:6\n";
            return (String::new(), stderr.to_string());
        }

        let mut out = String::from("a line a proc macro printed\n");
        let mut failed = false;
        let helper = format!("{BASE}/helper/src/lib.rs");
        if let Some(source) = self.files.borrow().get(&helper) {
            let theirs = format!("{BASE}/helper/Cargo.toml");
            if source.contains("let unused") {
                let text = "warning: unused variable: `unused`\n --> src/lib.rs:2:9\n\n";
                out.push_str(&message(&theirs, "helper", "warning", text));
            }
            if source.contains("\"not a u8\"") {
                let text = "error[E0308]: mismatched types\n --> src/lib.rs:1:25\n\n";
                out.push_str(&message(&theirs, "helper", "error", text));
                failed = true;
            } else {
                out.push_str(&artifact(&theirs, "helper"));
            }
        }
        if !failed {
            for line in manifest.lines() {
                let Some(rest) = line.strip_prefix("name = \"f_") else {
                    continue;
                };
                let bin = format!("f_{}", rest.trim_end_matches('"'));
                let source = self.files.borrow()[&format!("{directory}/src/bin/{bin}.rs")].clone();
                match self.rustc(&source, &bin) {
                    Verdict::Compiles => out.push_str(&artifact(manifest_path, &bin)),
                    Verdict::Says(said) => {
                        for (level, text) in said {
                            out.push_str(&message(manifest_path, &bin, level, &text));
                        }
                    }
                }
            }
        }
        out.push_str("{\"reason\":\"build-finished\",\"success\":false}\n");
        let stderr = format!("error: could not compile `nocompile-scratch` in {directory}\n");
        (out, stderr)
    }

    /// What rustc says of one fixture. Cargo keeps some of it to itself.
    fn rustc(&self, source: &str, bin: &str) -> Verdict {
        let said = match source {
            ACCEPTED | "\n\nfn main() {}\n" => return Verdict::Compiles,
            "fn main() {\n    let _x: u8 = helper::small();\n}\n" => return Verdict::Compiles,
            REJECTED => mismatched(bin, "2:18", "    let _x: u8 = \"not a u8\";", "^^^^^^^^^^"),
            UNDEFINED => format!(
                "error[E0425]: cannot find function `undefined_function` in this scope\n \
                 --> src/bin/{bin}.rs:2:5\n  |\n2 |     undefined_function();\n  \
                 |     ^^^^^^^^^^^^^^^^^^ not found in this scope\n\n"
            ),
            "fn main_helper() -> u8 {\n    0\n}\n\nconst _: u8 = \"not a u8\";\n" => format!(
                "error[E0308]: mismatched types\n --> src/bin/{bin}.rs:5:15\n  |\n\
                 5 | const _: u8 = \"not a u8\";\n  |               ^^^^^^^^^^\n\n"
            ),
            "fn main() {\n    let _x: u8 = \"src/bin/f_not_ours.rs\";\n}\n" => mismatched(
                bin,
                "2:18",
                "    let _x: u8 = \"src/bin/f_not_ours.rs\";",
                "^^^^^^^^^^^^^^^^^^^^^^^",
            ),
            "fn main() {\n    let _x: String = helper::small();\n}\n" => mismatched(
                bin,
                "2:22",
                "    let _x: String = helper::small();",
                "^^^^^^^^^^^^^^^",
            ),
            "const _X: u8 = 0;\n" | "const _Y: u8 = 0;\n" => format!(
                "error[E0601]: `main` function not found in crate `{bin}`\n \
                 --> src/bin/{bin}.rs:1:18\n  |\n1 | {}\n  |                  ^ consider adding \
                 a `main` function to `src/bin/{bin}.rs`\n\n",
                source.trim_end()
            ),
            "fn main() {\n    outsider::take(\"not small\");\n}\n" => {
                let line = 2 + *self.above.borrow();
                let gutter = " ".repeat(line.to_string().len());
                format!(
                    "error[E0277]: the trait bound `&str: Small` is not satisfied\n\
                     {gutter}--> src/bin/{bin}.rs:2:20\n\
                     {gutter} |\n\
                     {:>width$} |     outsider::take(\"not small\");\n\
                     {gutter} |                    ^^^^^^^^^^^ not satisfied\n\
                     {gutter} |\n\
                     note: required by a bound in `take`\n\
                     {gutter}--> /sandbox/outside-dependency-dep/src/lib.rs:{line}:16\n\
                     {gutter} |\n\
                     {line} | pub fn take<T: Small>(_value: T) {{}}\n\
                     {gutter} |                ^^^^^ required by this bound in `take`\n\n",
                    2,
                    width = gutter.len(),
                )
            }
            "struct Token;\nfn main() {\n    let _v: Vec<u8> = std::iter::once(Token).collect();\n}\n" => {
                format!(
                    "error[E0277]: a value of type `Vec<u8>` cannot be built from `Token`\n   \
                     --> src/bin/{bin}.rs:3:46\n    |\n  3 |     let _v: Vec<u8> = \
                     std::iter::once(Token).collect();\n    |     ^^^^^^^ not satisfied\n    \
                     |\nnote: required by a bound in `collect`\n   --> /home/u/.rustup/toolchains/\
                     stable-x86_64-unknown-linux-gnu/lib/rustlib/src/rust/library/core/src/iter/\
                     traits/iterator.rs:1967:19\n\n"
                )
            }
            worded => {
                let text = worded
                    .strip_prefix("compile_error!(\"")
                    .and_then(|rest| rest.strip_suffix("\");\n\nfn main() {}\n"))
                    .unwrap_or_else(|| panic!("an unknown fixture: {worded}"));
                // Cargo takes these for rustc's own summary lines.
                if text.starts_with("aborting due to") || text.ends_with("warnings emitted") {
                    return Verdict::Says(Vec::new());
                }
                format!(
                    "error: {text}\n --> src/bin/{bin}.rs:1:1\n  |\n1 | compile_error!(\"{text}\");\n  \
                     | ^^^^^^^^^^^^^^\n\n"
                )
            }
        };
        let footer = "For more information about this error, try `rustc --explain E0308`.\n";
        Verdict::Says(vec![
            ("error", said),
            ("failure-note", footer.to_string()),
        ])
    }
}

fn mismatched(bin: &str, at: &str, line: &str, carets: &str) -> String {
    let column: usize = at[2..].parse().expect("a column");
    format!(
        "error[E0308]: mismatched types\n --> src/bin/{bin}.rs:{at}\n  |\n2 | {line}\n  | {}{carets} \
         mismatched\n\n",
        " ".repeat(column - 1)
    )
}

fn message(manifest: &str, target: &str, level: &str, rendered: &str) -> String {
    format!(
        "{{\"reason\":\"compiler-message\",\"manifest_path\":\"{manifest}\",\"target\":{{\"name\":\
         \"{target}\"}},\"message\":{{\"level\":\"{level}\",\"rendered\":{}}}}}\n",
        toml_string(rendered)
    )
}

fn artifact(manifest: &str, target: &str) -> String {
    format!(
        "{{\"reason\":\"compiler-artifact\",\"manifest_path\":\"{manifest}\",\"target\":{{\"name\":\
         \"{target}\"}}}}\n"
    )
}

/// A fixture that cannot compile.
const REJECTED: &str = "fn main() {\n    let _x: u8 = \"not a u8\";\n}\n";

/// A fixture that compiles cleanly.
const ACCEPTED: &str = "fn main() {\n    let _x: u8 = 0;\n    println!(\"{_x}\");\n}\n";

/// A fixture that cannot compile for another reason.
const UNDEFINED: &str = "fn main() {\n    undefined_function();\n}\n";

/// The single failure of a one-case run.
fn sole_failure(outcome: &Outcome) -> &Failure {
    assert!(
        outcome.setup_failures().is_empty(),
        "unexpected setup failure:\n{}",
        outcome.report()
    );
    assert_eq!(outcome.cases().len(), 1, "expected exactly one case");
    outcome.cases()[0]
        .failure()
        .unwrap_or_else(|| panic!("expected the case to fail, but it passed"))
}

fn assert_passed(outcome: &Outcome) {
    assert!(
        outcome.is_success(),
        "expected a pass:\n{}",
        outcome.report()
    );
}

/// A fixture that fails to compile, with a correct golden, passes.
#[test]
fn a_rejected_fixture_with_a_correct_golden_passes() {
    let sandbox = Sandbox::new("correct-golden");
    sandbox.write("ui/rejected.rs", REJECTED);

    let mut t = sandbox.cases();
    t.compile_fail("ui/rejected.rs");

    assert_passed(&sandbox.run(t.overwrite(true)));
    let golden = sandbox.read("ui/rejected.stderr");
    assert!(
        golden.contains("error[E0308]: mismatched types"),
        "{golden}"
    );
    assert!(
        golden.contains("--> ui/rejected.rs:2:18"),
        "the span should point at the fixture, not the scratch project:\n{golden}"
    );
    assert!(
        !golden.contains("nocompile-scratch") && !golden.contains("src/bin/"),
        "the scratch project leaked into the golden:\n{golden}"
    );

    assert_passed(&sandbox.run(t.overwrite(false)));
}

/// The same fixture with a deliberately wrong golden must fail.
#[test]
fn a_rejected_fixture_with_a_wrong_golden_fails() {
    let sandbox = Sandbox::new("wrong-golden");
    sandbox.write("ui/rejected.rs", REJECTED);

    let mut t = sandbox.cases();
    t.compile_fail("ui/rejected.rs");
    assert_passed(&sandbox.run(t.overwrite(true)));

    let corrupted = sandbox
        .read("ui/rejected.stderr")
        .replace("mismatched types", "some other problem entirely");
    sandbox.write("ui/rejected.stderr", &corrupted);

    let outcome = sandbox.run(t.overwrite(false));
    let failure = sole_failure(&outcome);
    let Failure::Mismatch { golden, mode, .. } = failure else {
        panic!("expected Mismatch, got {failure:?}");
    };
    assert_eq!(golden, "ui/rejected.stderr");
    assert_eq!(*mode, Mode::Exact);

    // The report has to name the fixture and show the difference, or nobody can
    // act on it.
    let report = outcome.report();
    assert!(report.contains("ui/rejected.rs"), "{report}");
    assert!(
        report.contains("-error[E0308]: some other problem entirely"),
        "{report}"
    );
    assert!(
        report.contains("+error[E0308]: mismatched types"),
        "{report}"
    );
}

/// A fixture that compiles, declared `compile_fail`, must fail.
#[test]
fn a_fixture_that_compiles_fails_a_compile_fail_case() {
    let sandbox = Sandbox::new("unexpectedly-compiles");
    sandbox.write("ui/accepted.rs", ACCEPTED);

    let mut t = sandbox.cases();
    t.compile_fail("ui/accepted.rs");

    let outcome = sandbox.run(t.overwrite(false));
    let failure = sole_failure(&outcome);
    assert!(matches!(failure, Failure::Compiled), "{failure:?}");
    assert!(
        outcome.report().contains("but the fixture compiled"),
        "{}",
        outcome.report()
    );
}

/// A fixture with no golden must fail, not bless.
#[test]
fn a_missing_golden_is_a_failure_not_an_implicit_bless() {
    let sandbox = Sandbox::new("missing-golden");
    sandbox.write("ui/rejected.rs", REJECTED);

    let mut t = sandbox.cases();
    t.compile_fail("ui/rejected.rs").overwrite(false);

    let outcome = sandbox.run(&t);
    let failure = sole_failure(&outcome);
    let Failure::MissingGolden { golden } = failure else {
        panic!("expected MissingGolden, got {failure:?}");
    };
    assert_eq!(golden, "ui/rejected.stderr");
    assert!(
        !sandbox.has("ui/rejected.stderr"),
        "a failing run must not write the golden it was missing"
    );
}

/// A `pass` fixture that does not compile must fail.
#[test]
fn a_pass_fixture_that_does_not_compile_fails() {
    let sandbox = Sandbox::new("pass-does-not-compile");
    sandbox.write("ui/rejected.rs", REJECTED);

    let mut t = sandbox.cases();
    t.pass("ui/rejected.rs");

    let outcome = sandbox.run(t.overwrite(false));
    let failure = sole_failure(&outcome);
    let Failure::DidNotCompile { stderr } = failure else {
        panic!("expected DidNotCompile, got {failure:?}");
    };
    assert!(stderr.contains("error[E0308]"), "{stderr}");
    assert!(
        stderr.contains("ui/rejected.rs"),
        "the message should point at the fixture:\n{stderr}"
    );
}

/// The other half of a UI suite: proof that the *allowed* form still compiles.
#[test]
fn a_pass_fixture_that_compiles_passes() {
    let sandbox = Sandbox::new("pass-compiles");
    sandbox.write("ui/accepted.rs", ACCEPTED);

    let mut t = sandbox.cases();
    t.pass("ui/accepted.rs");
    assert_passed(&sandbox.run(t.overwrite(false)));
}

/// Blessing must never write a golden for a fixture that compiled.
#[test]
fn blessing_refuses_a_fixture_that_compiled() {
    let sandbox = Sandbox::new("bless-refuses");
    sandbox.write("ui/accepted.rs", ACCEPTED);

    let mut t = sandbox.cases();
    t.compile_fail("ui/accepted.rs");

    let outcome = sandbox.run(t.overwrite(true));
    assert!(matches!(sole_failure(&outcome), Failure::Compiled));
    assert!(
        !sandbox.has("ui/accepted.stderr"),
        "bless wrote a golden for a fixture that compiled"
    );
}

/// A fixture is copied verbatim.
#[test]
fn a_fixture_is_never_rewritten_before_compiling() {
    let sandbox = Sandbox::new("verbatim");
    // Contains the substring `fn main` but declares no `main`.
    sandbox.write(
        "ui/helper.rs",
        "fn main_helper() -> u8 {\n    0\n}\n\nconst _: u8 = \"not a u8\";\n",
    );

    let mut t = sandbox.cases();
    t.compile_fail("ui/helper.rs");
    assert_passed(&sandbox.run(t.overwrite(true)));

    let golden = sandbox.read("ui/helper.stderr");
    assert!(
        golden.contains("--> ui/helper.rs:5:15"),
        "spans must match the fixture as written:\n{golden}"
    );
    assert!(
        !golden.contains("fn main() {}"),
        "the harness injected source into the golden:\n{golden}"
    );
}

/// A fixture's own diagnostic must never be mistaken for one of cargo's or rustc's
/// summaries.
#[test]
fn a_fixture_error_worded_like_a_summary_reaches_the_golden() {
    let sandbox = Sandbox::new("summary-wording");
    sandbox.write(
        "ui/worded.rs",
        "compile_error!(\"could not compile `this input` due to a missing impl\");\n\nfn main() {}\n",
    );

    let mut t = sandbox.cases();
    t.compile_fail("ui/worded.rs");
    assert_passed(&sandbox.run(t.overwrite(true)));

    let golden = sandbox.read("ui/worded.stderr");
    assert!(
        golden.contains("could not compile `this input` due to a missing impl"),
        "the fixture's own diagnostic was dropped as a summary:\n{golden}"
    );

    // And deleting the guarded construct must now be caught rather than pass.
    sandbox.write("ui/worded.rs", "\n\nfn main() {}\n");
    assert!(
        !sandbox.run(t.overwrite(false)).is_success(),
        "removing the guarded construct went unnoticed"
    );
}

/// The same hazard inverted: a fixture whose diagnostic reads like one of cargo's own
/// failures must still be blessable.
#[test]
fn a_fixture_error_worded_like_a_cargo_failure_reaches_the_golden() {
    let sandbox = Sandbox::new("cargo-wording");
    sandbox.write(
        "ui/worded.rs",
        "compile_error!(\"failed to parse the codec attribute\");\n\nfn main() {}\n",
    );

    let mut t = sandbox.cases();
    t.compile_fail("ui/worded.rs");
    assert_passed(&sandbox.run(t.overwrite(true)));

    let golden = sandbox.read("ui/worded.stderr");
    assert!(
        golden.contains("failed to parse the codec attribute"),
        "the fixture's own diagnostic was misreported as a cargo failure:\n{golden}"
    );
}

/// Normalization must not rewrite the fixture's own source text.
#[test]
fn normalization_leaves_quoted_source_alone() {
    let sandbox = Sandbox::new("quoted-source");
    sandbox.write(
        "ui/quotes_a_path.rs",
        "fn main() {\n    let _x: u8 = \"src/bin/f_not_ours.rs\";\n}\n",
    );

    let mut t = sandbox.cases();
    t.compile_fail("ui/quotes_a_path.rs");
    assert_passed(&sandbox.run(t.overwrite(true)));

    let golden = sandbox.read("ui/quotes_a_path.stderr");
    assert!(
        golden.contains("let _x: u8 = \"src/bin/f_not_ours.rs\""),
        "the fixture's source was rewritten inside its own snippet:\n{golden}"
    );
    assert!(
        golden.contains("--> ui/quotes_a_path.rs:2:18"),
        "the span was not rewritten:\n{golden}"
    );
}

/// A suite that registers nothing must not report success.
#[test]
fn a_suite_that_registers_nothing_is_reported() {
    let sandbox = Sandbox::new("nothing-registered");
    let outcome = sandbox.run(&sandbox.cases());
    assert!(!outcome.is_success());
    assert!(
        matches!(outcome.setup_failures(), [Failure::NothingRegistered]),
        "{:?}",
        outcome.setup_failures()
    );
}

/// `Brief` filters both sides, so switching modes does not force a re-bless before the
/// suite can go green.
#[test]
fn brief_mode_accepts_an_exact_golden() {
    let sandbox = Sandbox::new("brief-mode");
    sandbox.write("ui/rejected.rs", REJECTED);

    let mut t = sandbox.cases();
    t.compile_fail("ui/rejected.rs");
    assert_passed(&sandbox.run(t.overwrite(true)));
    let exact = sandbox.read("ui/rejected.stderr");

    assert_passed(&sandbox.run(t.mode(Mode::Brief).overwrite(false)));

    // Blessing in `Brief` then shrinks the golden to what it actually compares.
    assert_passed(&sandbox.run(t.overwrite(true)));
    let brief = sandbox.read("ui/rejected.stderr");
    assert!(
        brief.len() < exact.len(),
        "Brief golden was not smaller:\n{brief}"
    );
    assert!(brief.contains("error[E0308]: mismatched types"), "{brief}");
    assert!(brief.contains("--> ui/rejected.rs:2:18"), "{brief}");
    assert!(
        !brief.contains("let _x"),
        "Brief kept the source snippet:\n{brief}"
    );
}

/// `Brief` must still catch a fixture that starts failing for a different reason.
#[test]
fn brief_mode_still_catches_a_changed_error() {
    let sandbox = Sandbox::new("brief-catches");
    sandbox.write("ui/rejected.rs", REJECTED);

    let mut t = sandbox.cases();
    t.compile_fail("ui/rejected.rs").mode(Mode::Brief);
    assert_passed(&sandbox.run(t.overwrite(true)));

    // Same fixture name, different invariant broken.
    sandbox.write("ui/rejected.rs", UNDEFINED);
    let outcome = sandbox.run(t.overwrite(false));
    assert!(matches!(sole_failure(&outcome), Failure::Mismatch { .. }));
}

/// Directory registration takes every `.rs` file, in file-name order, and pairs each
/// with the golden beside it.
#[test]
fn a_directory_registers_every_fixture_in_order() {
    let sandbox = Sandbox::new("directory");
    sandbox.write("ui/b_second.rs", REJECTED);
    sandbox.write("ui/a_first.rs", UNDEFINED);
    sandbox.write("ui/notes.txt", "not a fixture");

    let mut t = sandbox.cases();
    t.compile_fail_dir("ui", sandbox.list("ui"));
    let outcome = sandbox.run(t.overwrite(true));
    assert_passed(&outcome);

    let paths: Vec<&str> = outcome.cases().iter().map(CaseOutcome::path).collect();
    assert_eq!(paths, ["ui/a_first.rs", "ui/b_second.rs"]);
    assert!(sandbox.has("ui/a_first.stderr"));
    assert!(sandbox.has("ui/b_second.stderr"));
}

/// A fixture directory that matches nothing means the suite is not running.
#[test]
fn an_empty_fixture_directory_is_reported() {
    let sandbox = Sandbox::new("empty-dir");

    let mut t = sandbox.cases();
    t.compile_fail_dir("ui", sandbox.list("ui"));

    let outcome = sandbox.run(&t);
    assert!(!outcome.is_success());
    assert!(
        matches!(outcome.setup_failures(), [Failure::NoFixtures { .. }]),
        "{:?}",
        outcome.setup_failures()
    );
}

/// A missing fixture directory is reported rather than panicking at registration time.
#[test]
fn a_missing_fixture_directory_is_reported() {
    let sandbox = Sandbox::new("missing-dir");

    let mut t = sandbox.cases();
    t.compile_fail_dir("does-not-exist", Err("No such file or directory".to_string()));

    let outcome = sandbox.run(&t);
    assert!(!outcome.is_success());
    assert!(
        outcome
            .report()
            .contains("could not read the fixture directory does-not-exist"),
        "{}",
        outcome.report()
    );
}

/// A declared dependency is in the manifest, and so within reach of the fixtures.
#[test]
fn a_declared_path_dependency_reaches_the_fixtures() {
    let sandbox = Sandbox::new("path-dependency");
    sandbox.write("helper/src/lib.rs", "pub fn small() -> u8 {\n    0\n}\n");
    sandbox.write(
        "ui-pass/uses_helper.rs",
        "fn main() {\n    let _x: u8 = helper::small();\n}\n",
    );
    sandbox.write(
        "ui/misuses_helper.rs",
        "fn main() {\n    let _x: String = helper::small();\n}\n",
    );

    let mut t = sandbox.cases();
    t.dependency_path("helper", "helper");
    t.pass("ui-pass/uses_helper.rs");
    t.compile_fail("ui/misuses_helper.rs");

    assert_passed(&sandbox.run(t.overwrite(true)));
    let golden = sandbox.read("ui/misuses_helper.stderr");
    assert!(
        golden.contains("error[E0308]: mismatched types"),
        "{golden}"
    );
    assert!(golden.contains("--> ui/misuses_helper.rs:2:22"), "{golden}");
    let manifest = sandbox.read("target/nocompile/path-dependency/project/Cargo.toml");
    assert!(
        manifest.contains("helper = { path = \"/sandbox/host/helper\" }\n"),
        "{manifest}"
    );
}

/// A run reports every case, not just the first to fail.
#[test]
fn all_cases_are_reported_not_just_the_first_failure() {
    let sandbox = Sandbox::new("reports-all");
    sandbox.write("ui/a.rs", ACCEPTED);
    sandbox.write("ui/b.rs", ACCEPTED);

    let mut t = sandbox.cases();
    t.compile_fail_dir("ui", sandbox.list("ui")).overwrite(false);

    let outcome = sandbox.run(&t);
    assert_eq!(outcome.failures().len(), 2);
    let report = outcome.report();
    assert!(report.contains("2 of 2 case(s) failed"), "{report}");
    assert!(report.contains("FAIL ui/a.rs (compile_fail)"), "{report}");
    assert!(report.contains("FAIL ui/b.rs (compile_fail)"), "{report}");
}

/// What there is to panic with is the report rather than a bare assertion failure.
#[test]
fn assert_panics_with_the_report() {
    let sandbox = Sandbox::new("assert-panics");
    sandbox.write("ui/accepted.rs", ACCEPTED);

    let mut t = sandbox.cases();
    t.compile_fail("ui/accepted.rs").overwrite(false);

    let message = sandbox.run(&t).complaint().expect("something to panic with");
    assert!(message.contains("FAIL ui/accepted.rs"), "{message}");
    assert!(message.contains("but the fixture compiled"), "{message}");
}

/// Cargo failing on its own terms is not a property of the fixture, and must not be
/// mistaken for one. It is reported once, against the run.
#[test]
fn a_cargo_failure_is_not_reported_as_a_diagnostic() {
    let sandbox = Sandbox::new("cargo-failure");
    sandbox.write("ui/rejected.rs", REJECTED);
    sandbox.write("ui/other.rs", REJECTED);

    let mut t = sandbox.cases();
    t.compile_fail("ui/rejected.rs");
    t.compile_fail("ui/other.rs");
    t.raw_manifest_lines("this is not valid toml [[[");

    let outcome = sandbox.run(t.overwrite(true));
    assert!(!outcome.is_success());
    assert_eq!(
        outcome.setup_failures().len(),
        1,
        "one manifest error should be reported once:\n{}",
        outcome.report()
    );
    let Failure::Cargo { message } = &outcome.setup_failures()[0] else {
        panic!("expected Cargo, got {:?}", outcome.setup_failures()[0]);
    };
    assert!(message.contains("expected `=`"), "{message}");
    assert!(
        !sandbox.has("ui/rejected.stderr") && !sandbox.has("ui/other.stderr"),
        "bless wrote a golden from a manifest cargo could not parse"
    );
}

/// A diagnostic that reaches into a path dependency living *outside* the host crate
/// must not put that dependency's absolute path, or its line numbers, in the golden.
#[test]
fn a_diagnostic_reaching_into_an_outside_dependency_is_portable() {
    let sandbox = Sandbox::new("outside-dependency");
    sandbox.write(
        "ui/violates_bound.rs",
        "fn main() {\n    outsider::take(\"not small\");\n}\n",
    );

    let mut t = sandbox.cases();
    t.dependency_path("outsider", "../outside-dependency-dep");
    t.compile_fail("ui/violates_bound.rs");
    assert_passed(&sandbox.run(t.overwrite(true)));

    let golden = sandbox.read("ui/violates_bound.stderr");
    assert!(
        !golden.contains("/sandbox/outside-dependency-dep"),
        "the dependency's absolute path reached the golden:\n{golden}"
    );
    assert!(
        golden.contains("$OUTSIDER/src/lib.rs"),
        "expected a dependency placeholder:\n{golden}"
    );
    assert!(
        !golden.contains("$OUTSIDER/src/lib.rs:"),
        "the dependency's line and column reached the golden:\n{golden}"
    );
    // The fixture's own span is the thing under test, and keeps its position.
    assert!(
        golden.contains("--> ui/violates_bound.rs:2:20"),
        "the fixture's own span lost its position:\n{golden}"
    );

    // Now move the dependency's code down, changing nothing the golden has any
    // business recording. The unchanged golden must still match.
    for above in [1, 500, 12345] {
        *sandbox.above.borrow_mut() = above;
        let mut t = sandbox.cases();
        t.dependency_path("outsider", "../outside-dependency-dep");
        t.compile_fail("ui/violates_bound.rs");
        assert_passed(&sandbox.run(t.overwrite(false)));
    }
}

/// A diagnostic that reaches into the standard library must not put the toolchain's
/// location in the golden.
#[test]
fn a_diagnostic_reaching_into_the_standard_library_is_portable() {
    let sandbox = Sandbox::new("sysroot-span");
    sandbox.write(
        "ui/collects_wrong.rs",
        "struct Token;\nfn main() {\n    let _v: Vec<u8> = std::iter::once(Token).collect();\n}\n",
    );

    let mut t = sandbox.cases();
    t.compile_fail("ui/collects_wrong.rs");
    assert_passed(&sandbox.run(t.overwrite(true)));

    let golden = sandbox.read("ui/collects_wrong.stderr");
    assert!(
        golden.contains("$RUST/"),
        "expected a toolchain placeholder:\n{golden}"
    );
    assert!(
        !golden.contains("rustlib") && !golden.contains(".rustup"),
        "the toolchain's location reached the golden:\n{golden}"
    );
    assert!(
        !golden.contains("/home/u"),
        "the home directory reached the golden:\n{golden}"
    );
}

/// A warning in a path dependency belongs to that dependency's build, not to any
/// fixture's golden.
#[test]
fn a_dependency_warning_does_not_reach_a_fixtures_golden() {
    let sandbox = Sandbox::new("dependency-warning");
    sandbox.write(
        "helper/src/lib.rs",
        "pub fn small() -> u8 {\n    let unused = 1;\n    0\n}\n",
    );
    sandbox.write(
        "ui/misuses_helper.rs",
        "fn main() {\n    let _x: String = helper::small();\n}\n",
    );

    let mut t = sandbox.cases();
    t.dependency_path("helper", "helper");
    t.compile_fail("ui/misuses_helper.rs");
    assert_passed(&sandbox.run(t.overwrite(true)));

    let golden = sandbox.read("ui/misuses_helper.stderr");
    assert!(
        golden.contains("error[E0308]: mismatched types"),
        "{golden}"
    );
    assert!(
        !golden.contains("unused"),
        "a dependency's warning reached the fixture's golden:\n{golden}"
    );
}

/// A dependency that will not build leaves every fixture with no diagnostics and no
/// artifact. It is reported once, with its own error.
#[test]
fn a_dependency_that_does_not_build_is_reported_once_with_its_own_error() {
    let sandbox = Sandbox::new("dependency-broken");
    sandbox.write(
        "helper/src/lib.rs",
        "pub fn broken() -> u8 { \"not a u8\" }\n",
    );
    sandbox.write("ui/a.rs", REJECTED);
    sandbox.write("ui/b.rs", REJECTED);

    let mut t = sandbox.cases();
    t.dependency_path("helper", "helper");
    t.compile_fail_dir("ui", sandbox.list("ui"));

    let outcome = sandbox.run(t.overwrite(true));
    assert!(!outcome.is_success());
    assert_eq!(
        outcome.setup_failures().len(),
        1,
        "one broken dependency should be reported once:\n{}",
        outcome.report()
    );
    let report = outcome.report();
    assert!(
        report.contains("mismatched types"),
        "the dependency's own error should be what is shown:\n{report}"
    );
    assert!(
        !sandbox.has("ui/a.stderr") && !sandbox.has("ui/b.stderr"),
        "bless wrote a golden from a run in which nothing compiled"
    );
}

/// rustc reports a fixture with no `fn main` by naming the *crate*, which is a bin
/// target this harness generated, so its name must not reach the golden.
#[test]
fn a_fixture_without_main_does_not_record_harness_internals() {
    let sandbox = Sandbox::new("no-main");
    sandbox.write("ui/no_main.rs", "const _X: u8 = 0;\n");

    let mut t = sandbox.cases();
    t.compile_fail("ui/no_main.rs");
    assert_passed(&sandbox.run(t.overwrite(true)));

    let golden = sandbox.read("ui/no_main.stderr");
    assert!(golden.contains("E0601"), "{golden}");
    assert!(
        !golden.contains("src/bin/") && !golden.contains("f_ui_no_main"),
        "a generated bin name or path reached the golden:\n{golden}"
    );
    assert!(
        golden.contains("$CRATE"),
        "the generated crate should normalize to a placeholder:\n{golden}"
    );
}

/// Registering another fixture must not change an existing fixture's golden.
#[test]
fn adding_a_fixture_does_not_disturb_another_fixtures_golden() {
    let sandbox = Sandbox::new("golden-stability");
    sandbox.write("ui/no_main.rs", "const _X: u8 = 0;\n");

    let mut t = sandbox.cases();
    t.compile_fail("ui/no_main.rs");
    assert_passed(&sandbox.run(t.overwrite(true)));
    let before = sandbox.read("ui/no_main.stderr");

    // Sorts before `no_main.rs`, and sanitizes to the same text.
    sandbox.write("ui/no-main.rs", "const _Y: u8 = 0;\n");
    let mut t = sandbox.cases();
    t.compile_fail_dir("ui", sandbox.list("ui"));
    let outcome = sandbox.run(t.overwrite(true));
    assert!(outcome.is_success(), "{}", outcome.report());

    assert_eq!(
        before,
        sandbox.read("ui/no_main.stderr"),
        "adding an unrelated fixture rewrote this one's golden"
    );
}

/// Cargo suppresses a diagnostic worded like one of its own summary lines, so a fixture
/// left with no diagnostics at all must be reported, and never blessed.
fn assert_suppressed_wording_is_reported(name: &str, message: &str) {
    let sandbox = Sandbox::new(name);
    sandbox.write(
        "ui/suppressed.rs",
        &format!("compile_error!(\"{message}\");\n\nfn main() {{}}\n"),
    );

    let mut t = sandbox.cases();
    t.compile_fail("ui/suppressed.rs");

    // A blessing run, because blessing is where the damage would be done.
    let outcome = sandbox.run(t.overwrite(true));
    let failure = sole_failure(&outcome);
    assert!(
        matches!(failure, Failure::NoDiagnostics { .. }),
        "expected NoDiagnostics for a suppressed `{message}`, got: {failure:?}"
    );
    assert!(
        !sandbox.has("ui/suppressed.stderr"),
        "an empty golden was blessed for a suppressed `{message}`"
    );
    // The reader cannot see the cause anywhere else, so the failure must name it.
    let report = outcome.report();
    assert!(
        report.contains("aborting due to") && report.contains("warnings emitted"),
        "the failure does not say what cargo suppressed:\n{report}"
    );
}

#[test]
fn a_fixture_whose_only_error_is_worded_like_an_abort_is_reported() {
    assert_suppressed_wording_is_reported("abort-wording", "aborting due to a missing impl");
}

#[test]
fn a_fixture_whose_only_error_is_worded_like_a_warning_count_is_reported() {
    assert_suppressed_wording_is_reported("warning-count-wording", "3 warnings emitted");
}

/// The same fixture in a suite alongside a healthy one must come to the same.
#[test]
fn a_suppressed_wording_is_reported_the_same_way_beside_a_healthy_fixture() {
    let sandbox = Sandbox::new("suppressed-beside-healthy");
    sandbox.write(
        "ui/suppressed.rs",
        "compile_error!(\"aborting due to a missing impl\");\n\nfn main() {}\n",
    );
    sandbox.write("ui/healthy.rs", REJECTED);

    let mut t = sandbox.cases();
    t.compile_fail("ui/suppressed.rs");
    t.compile_fail("ui/healthy.rs");
    let outcome = sandbox.run(t.overwrite(true));

    assert!(
        outcome.setup_failures().is_empty(),
        "a fixture-level problem was reported as a failure of the run:\n{}",
        outcome.report()
    );
    let failures = outcome.failures();
    assert_eq!(
        failures.len(),
        1,
        "expected one failure:\n{}",
        outcome.report()
    );
    assert_eq!(failures[0].path(), "ui/suppressed.rs");
    assert!(matches!(
        failures[0].failure(),
        Some(Failure::NoDiagnostics { .. })
    ));

    // The healthy fixture is unaffected: one bad fixture must not cost the run.
    assert!(
        sandbox.has("ui/healthy.stderr"),
        "a healthy fixture beside a suppressed one was not blessed"
    );
}

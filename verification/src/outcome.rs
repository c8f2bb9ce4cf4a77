//! What a run produced: one [`CaseOutcome`] per fixture, plus any setup failure
//! that prevented the run from starting.
use crate::compare::Mode;
use crate::diff::{differs_at, first_difference, unified, unified_text};
use crate::environment::optional;
use crate::text::{
    chars_of, decimal, ends_with, has_text, is_digit, lemma_decimal_digits, lemma_has_text, lines,
    occurs_at, push_chars, push_text, split_lines, starts_with, string_of, texts, to_decimal, trim,
    trim_end, trimmed, trimmed_end,
};
use vstd::prelude::*;

verus! {

/// What a fixture is asserted to do.
#[derive(Debug, Clone, Copy, PartialEq, Eq, Hash, Structural)]
pub enum Kind {
    /// The fixture must not compile, and its diagnostics must match its golden.
    CompileFail,
    /// The fixture must compile. There is no golden; the assertion is the exit
    /// status.
    Pass,
}

impl Kind {
    /// What the report calls it.
    pub open spec fn name(self) -> Seq<char> {
        match self {
            Kind::CompileFail => "compile_fail"@,
            Kind::Pass => "pass"@,
        }
    }

    /// What the report calls it.
    pub fn label(self) -> (r: &'static str)
        ensures
            r@ == self.name(),
    {
        match self {
            Kind::CompileFail => "compile_fail",
            Kind::Pass => "pass",
        }
    }
}

/// Why a single fixture, or the run as a whole, did not hold up.
///
/// This is what makes the harness testable by itself: a run hands back structured
/// failures instead of panicking, so a test can assert that a bad fixture *fails*,
/// and fails for the stated reason.
#[derive(Debug)]
#[non_exhaustive]
pub enum Failure {
    /// A `compile_fail` fixture compiled. The most important failure the harness
    /// reports, and the one a diff would obscure.
    Compiled,
    /// A `pass` fixture did not compile.
    DidNotCompile {
        /// The normalized diagnostics, for the report.
        stderr: String,
    },
    /// A `compile_fail` fixture failed to build but produced no diagnostics the
    /// harness could attribute to it. Blessing this would write an empty golden and
    /// make the fixture permanently, silently useless.
    NoDiagnostics {
        /// Whatever the harness did have: the fixture's unfiltered diagnostics if
        /// there were any, and otherwise cargo's own stderr, which names the target
        /// it could not compile even when it suppressed everything rustc said about
        /// it. Either may be empty.
        stderr: String,
    },
    /// The golden does not exist. A missing golden is a failure, never an implicit
    /// bless -- otherwise a new fixture "passes" on the run that creates it and
    /// nobody reads what it captured.
    MissingGolden {
        /// Path the golden was expected at.
        golden: String,
    },
    /// The diagnostics do not match the golden.
    Mismatch {
        /// Path of the golden that was compared against.
        golden: String,
        /// Golden content, after mode filtering.
        expected: String,
        /// Fixture diagnostics, after normalization and mode filtering.
        actual: String,
        /// The comparison mode in force.
        mode: Mode,
    },
    /// A fixture directory that matched no `.rs` files. Reported rather than passed
    /// silently: an empty directory means the suite is not running.
    NoFixtures {
        /// The directory that matched nothing.
        directory: String,
    },
    /// No fixtures were registered at all. The same hazard as
    /// [`Failure::NoFixtures`]: a suite that asserts nothing must not report
    /// success.
    NothingRegistered,
    /// Cargo itself failed -- a manifest it could not parse, a dependency it could
    /// not resolve. Not a property of the fixture.
    Cargo {
        /// Cargo's own message.
        message: String,
    },
    /// Cargo reported its messages against a path that names the scratch project's
    /// manifest differently from the path the harness handed it. Attribution is by
    /// that path, so this detaches every message from every fixture at once, and no
    /// fixture-level failure describes it.
    ManifestMismatch {
        /// The manifest path the harness gave cargo.
        handed: String,
        /// The path cargo reported back. A different spelling of `handed`.
        reported: String,
    },
    /// The harness could not read or write a file.
    Io {
        /// What it was trying to do.
        context: String,
        /// The underlying error, rendered. Kept as text so a failure can be cloned
        /// and reported by more than one run.
        message: String,
    },
}

/// A failure, as a value to reason about.
pub enum Problem {
    Compiled,
    DidNotCompile { stderr: Seq<char> },
    NoDiagnostics { stderr: Seq<char> },
    MissingGolden { golden: Seq<char> },
    Mismatch { golden: Seq<char>, expected: Seq<char>, actual: Seq<char>, mode: Mode },
    NoFixtures { directory: Seq<char> },
    NothingRegistered,
    Cargo { message: Seq<char> },
    ManifestMismatch { handed: Seq<char>, reported: Seq<char> },
    Io { context: Seq<char>, message: Seq<char> },
}

impl View for Failure {
    type V = Problem;

    open spec fn view(&self) -> Problem {
        match self {
            Failure::Compiled => Problem::Compiled,
            Failure::DidNotCompile { stderr } => Problem::DidNotCompile { stderr: stderr@ },
            Failure::NoDiagnostics { stderr } => Problem::NoDiagnostics { stderr: stderr@ },
            Failure::MissingGolden { golden } => Problem::MissingGolden { golden: golden@ },
            Failure::Mismatch { golden, expected, actual, mode } => Problem::Mismatch {
                golden: golden@,
                expected: expected@,
                actual: actual@,
                mode: *mode,
            },
            Failure::NoFixtures { directory } => Problem::NoFixtures { directory: directory@ },
            Failure::NothingRegistered => Problem::NothingRegistered,
            Failure::Cargo { message } => Problem::Cargo { message: message@ },
            Failure::ManifestMismatch { handed, reported } => Problem::ManifestMismatch {
                handed: handed@,
                reported: reported@,
            },
            Failure::Io { context, message } => Problem::Io {
                context: context@,
                message: message@,
            },
        }
    }
}

impl Clone for Failure {
    fn clone(&self) -> (r: Self)
        ensures
            r@ == self@,
    {
        match self {
            Failure::Compiled => Failure::Compiled,
            Failure::DidNotCompile { stderr } => Failure::DidNotCompile { stderr: stderr.clone() },
            Failure::NoDiagnostics { stderr } => Failure::NoDiagnostics { stderr: stderr.clone() },
            Failure::MissingGolden { golden } => Failure::MissingGolden { golden: golden.clone() },
            Failure::Mismatch { golden, expected, actual, mode } => Failure::Mismatch {
                golden: golden.clone(),
                expected: expected.clone(),
                actual: actual.clone(),
                mode: *mode,
            },
            Failure::NoFixtures { directory } => Failure::NoFixtures {
                directory: directory.clone(),
            },
            Failure::NothingRegistered => Failure::NothingRegistered,
            Failure::Cargo { message } => Failure::Cargo { message: message.clone() },
            Failure::ManifestMismatch { handed, reported } => Failure::ManifestMismatch {
                handed: handed.clone(),
                reported: reported.clone(),
            },
            Failure::Io { context, message } => Failure::Io {
                context: context.clone(),
                message: message.clone(),
            },
        }
    }
}

/// The failures in a list.
pub open spec fn problems(list: Seq<Failure>) -> Seq<Problem> {
    list.map_values(|f: Failure| f@)
}

// ---------------------------------------------------------------------------
// What a failure says.
// ---------------------------------------------------------------------------

pub const COMPILED: &'static str = "expected a compile error, but the fixture compiled";

pub const DID_NOT_COMPILE: &'static str = "expected the fixture to compile, but it did not:\n\n";

pub const NO_DIAGNOSTICS: &'static str = "the fixture failed to build but produced no diagnostics the harness could attribute to it; refusing to write an empty golden.\n\nCargo suppresses any diagnostic whose message begins with `aborting due to`, or ends with `warning emitted` or `warnings emitted`, which is how it strips rustc's own summary lines -- and a `compile_error!` worded any of those ways goes with them, before any harness can see it. If that is what happened, reword the message.";

/// Where cargo names the rustc command it ran, that command is the recovery rather
/// than clutter: rustc emits the diagnostic, and only cargo suppresses it.
pub const CARGO_SAID: &'static str = "\n\ncargo said this. Where it names the rustc command it ran, running that command with its `--error-format` and `--json` flags removed prints the suppressed diagnostic in full -- rustc emits it, and only cargo drops it:\n\n";

pub const NO_GOLDEN: &'static str = "no golden at ";

pub const BLESS_TO_CREATE: &'static str = "\nrun with NOCOMPILE=overwrite to create it, then read what it captured";

pub const BLESS_TO_UPDATE: &'static str = "\nrun with NOCOMPILE=overwrite to update the golden";

pub const NOTHING_TESTED: &'static str = " -- the suite would pass without testing anything";

pub const CARGO_FAILED: &'static str = "cargo could not run the fixture build:\n\n";

pub const MANIFEST_MISMATCH: &'static str = "cargo reported every message against a different spelling of the scratch project's manifest path, so none of them could be attributed to a fixture.\n\n    handed to cargo: ";

pub const MANIFEST_REPORTED: &'static str = "\n    reported back:   ";

pub const MANIFEST_ADVICE: &'static str = "\n\nBoth name the same file, so this is a difference of spelling rather than of location: a normalization cargo applies that the harness does not. Attribution compares the two as paths, and it has to -- target names are not a namespace, so a dependency is free to have a target named like a fixture's bin.\n\nSetting CARGO_TARGET_DIR to an absolute path is the workaround. The mismatch itself is a bug in this harness, and the two paths above are what it needs to be reported.";

/// What a failure says. What cargo said is shown only where there is something to
/// show: a heading over nothing would tell the reader the cause was visible.
pub open spec fn problem_text(problem: Problem) -> Seq<char> {
    match problem {
        Problem::Compiled => COMPILED@,
        Problem::DidNotCompile { stderr } => DID_NOT_COMPILE@ + stderr,
        Problem::NoDiagnostics { stderr } => if trim(stderr).len() == 0 {
            NO_DIAGNOSTICS@
        } else {
            NO_DIAGNOSTICS@ + CARGO_SAID@ + trim_end(stderr)
        },
        Problem::MissingGolden { golden } => NO_GOLDEN@ + golden + BLESS_TO_CREATE@,
        Problem::Mismatch { golden, expected, actual, mode } => {
            "diagnostics do not match "@ + golden + " ("@ + mode.name() + " mode)"@ + (
            match differs_at(lines(expected), lines(actual)) {
                Some(n) => ", first difference at line "@ + decimal(n),
                None => seq![],
            }) + "\n\n"@ + unified_text(expected, actual, golden, "actual"@) + BLESS_TO_UPDATE@
        },
        Problem::NoFixtures { directory } => "no .rs fixtures in "@ + directory + NOTHING_TESTED@,
        Problem::NothingRegistered => "no fixtures were registered"@ + NOTHING_TESTED@,
        Problem::Cargo { message } => CARGO_FAILED@ + message,
        Problem::ManifestMismatch { handed, reported } => MANIFEST_MISMATCH@ + handed
            + MANIFEST_REPORTED@ + reported + MANIFEST_ADVICE@,
        Problem::Io { context, message } => context + ": "@ + message,
    }
}

impl Failure {
    /// What the failure says, set in from no margin: this is not the place to know
    /// someone else's layout.
    pub fn to_string(&self) -> (r: String)
        ensures
            r@ == problem_text(self@),
    {
        let mut out: Vec<char> = Vec::new();
        match self {
            Failure::Compiled => {
                push_text(&mut out, COMPILED);
            },
            Failure::DidNotCompile { stderr } => {
                push_text(&mut out, DID_NOT_COMPILE);
                push_text(&mut out, stderr.as_str());
            },
            Failure::NoDiagnostics { stderr } => {
                push_text(&mut out, NO_DIAGNOSTICS);
                let chars = chars_of(stderr.as_str());
                if trimmed(chars.as_slice()).len() > 0 {
                    push_text(&mut out, CARGO_SAID);
                    push_chars(&mut out, trimmed_end(chars.as_slice()));
                }
            },
            Failure::MissingGolden { golden } => {
                push_text(&mut out, NO_GOLDEN);
                push_text(&mut out, golden.as_str());
                push_text(&mut out, BLESS_TO_CREATE);
            },
            Failure::Mismatch { golden, expected, actual, mode } => {
                push_text(&mut out, "diagnostics do not match ");
                push_text(&mut out, golden.as_str());
                push_text(&mut out, " (");
                let name = mode.to_string();
                push_text(&mut out, name.as_str());
                push_text(&mut out, " mode)");
                if let Some(line) = first_difference(expected.as_str(), actual.as_str()) {
                    push_text(&mut out, ", first difference at line ");
                    let number = to_decimal(line);
                    push_chars(&mut out, number.as_slice());
                }
                push_text(&mut out, "\n\n");
                let diff = unified(expected.as_str(), actual.as_str(), golden.as_str(), "actual");
                push_text(&mut out, diff.as_str());
                push_text(&mut out, BLESS_TO_UPDATE);
            },
            Failure::NoFixtures { directory } => {
                push_text(&mut out, "no .rs fixtures in ");
                push_text(&mut out, directory.as_str());
                push_text(&mut out, NOTHING_TESTED);
            },
            Failure::NothingRegistered => {
                push_text(&mut out, "no fixtures were registered");
                push_text(&mut out, NOTHING_TESTED);
            },
            Failure::Cargo { message } => {
                push_text(&mut out, CARGO_FAILED);
                push_text(&mut out, message.as_str());
            },
            Failure::ManifestMismatch { handed, reported } => {
                push_text(&mut out, MANIFEST_MISMATCH);
                push_text(&mut out, handed.as_str());
                push_text(&mut out, MANIFEST_REPORTED);
                push_text(&mut out, reported.as_str());
                push_text(&mut out, MANIFEST_ADVICE);
            },
            Failure::Io { context, message } => {
                push_text(&mut out, context.as_str());
                push_text(&mut out, ": ");
                push_text(&mut out, message.as_str());
            },
        }
        assert(out@ =~= problem_text(self@));
        string_of(out.as_slice())
    }
}

// ---------------------------------------------------------------------------
// Outcomes.
// ---------------------------------------------------------------------------

/// The result of one fixture, as a value to reason about.
pub struct CaseResult {
    pub path: Seq<char>,
    pub kind: Kind,
    /// Why it did not hold up, if it did not.
    pub problem: Option<Problem>,
}

/// The result of one fixture.
#[derive(Debug)]
pub struct CaseOutcome {
    path: String,
    kind: Kind,
    result: Result<(), Failure>,
}

/// The problem a result is.
pub open spec fn problem_in(result: Result<(), Failure>) -> Option<Problem> {
    match result {
        Ok(_) => None,
        Err(failure) => Some(failure@),
    }
}

impl View for CaseOutcome {
    type V = CaseResult;

    closed spec fn view(&self) -> CaseResult {
        CaseResult { path: self.path@, kind: self.kind, problem: problem_in(self.result) }
    }
}

/// The results in a list.
pub open spec fn results(list: Seq<CaseOutcome>) -> Seq<CaseResult> {
    list.map_values(|c: CaseOutcome| c@)
}

/// The results among these that did not hold up, in order.
pub open spec fn failed(list: Seq<CaseResult>) -> Seq<CaseResult>
    decreases list.len(),
{
    if list.len() == 0 {
        seq![]
    } else if list[0].problem is Some {
        seq![list[0]] + failed(list.drop_first())
    } else {
        failed(list.drop_first())
    }
}

impl CaseOutcome {
    pub fn new(path: String, kind: Kind, result: Result<(), Failure>) -> (r: Self)
        ensures
            r@ == (CaseResult { path: path@, kind, problem: problem_in(result) }),
    {
        CaseOutcome { path, kind, result }
    }

    /// The fixture's path, relative to the host crate's manifest directory.
    pub fn path(&self) -> (r: &str)
        ensures
            r@ == self@.path,
    {
        self.path.as_str()
    }

    /// Whether the fixture was a `compile_fail` or a `pass` case.
    pub fn kind(&self) -> (r: Kind)
        ensures
            r == self@.kind,
    {
        self.kind
    }

    /// The failure, if this case did not hold up.
    pub fn failure(&self) -> (r: Option<&Failure>)
        ensures
            match r {
                Some(failure) => self@.problem == Some(failure@),
                None => self@.problem is None,
            },
    {
        match &self.result {
            Ok(_) => None,
            Err(failure) => Some(failure),
        }
    }

    /// Whether this case held up.
    pub fn is_success(&self) -> (r: bool)
        ensures
            r == (self@.problem is None),
    {
        match &self.result {
            Ok(_) => true,
            Err(_) => false,
        }
    }
}

/// Everything one run produced, as a value to reason about.
pub struct Findings {
    pub setup: Seq<Problem>,
    pub cases: Seq<CaseResult>,
}

/// Everything one run produced.
#[derive(Debug)]
pub struct Outcome {
    setup: Vec<Failure>,
    cases: Vec<CaseOutcome>,
}

impl View for Outcome {
    type V = Findings;

    closed spec fn view(&self) -> Findings {
        Findings { setup: problems(self.setup@), cases: results(self.cases@) }
    }
}

/// Whether every fixture held up and setup was clean.
pub open spec fn succeeded(findings: Findings) -> bool {
    findings.setup.len() == 0 && forall|i: int|
        0 <= i < findings.cases.len() ==> (#[trigger] findings.cases[i]).problem is None
}

/// Each line that says something, set in by four spaces, and each line ended.
pub open spec fn indented(list: Seq<Seq<char>>) -> Seq<char>
    decreases list.len(),
{
    if list.len() == 0 {
        seq![]
    } else {
        (if list[0].len() == 0 {
            seq![]
        } else {
            "    "@ + list[0]
        }) + seq!['\n'] + indented(list.drop_first())
    }
}

/// What the report says of each setup failure.
pub open spec fn setup_report(list: Seq<Problem>) -> Seq<char>
    decreases list.len(),
{
    if list.len() == 0 {
        seq![]
    } else {
        "\nSETUP FAILED\n"@ + indented(lines(problem_text(list[0]))) + setup_report(
            list.drop_first(),
        )
    }
}

/// The heading over one failing case.
pub open spec fn case_heading(case: CaseResult) -> Seq<char> {
    "\nFAIL "@ + case.path + " ("@ + case.kind.name() + ")\n"@
}

/// What the report says of each case that did not hold up.
pub open spec fn case_report(list: Seq<CaseResult>) -> Seq<char>
    decreases list.len(),
{
    if list.len() == 0 {
        seq![]
    } else {
        (match list[0].problem {
            Some(problem) => case_heading(list[0]) + indented(lines(problem_text(problem))),
            None => seq![],
        }) + case_report(list.drop_first())
    }
}

/// The report on a run.
pub open spec fn report_text(findings: Findings) -> Seq<char> {
    let count = failed(findings.cases).len();
    if findings.setup.len() == 0 && count == 0 {
        "nocompile: "@ + decimal(findings.cases.len()) + " case(s) passed"@
    } else {
        "nocompile: "@ + decimal(count) + " of "@ + decimal(findings.cases.len())
            + " case(s) failed\n"@ + setup_report(findings.setup) + case_report(findings.cases)
    }
}

/// Write a failure under its heading, set in by four spaces.
fn indent(out: &mut Vec<char>, failure: &Failure)
    ensures
        final(out)@ == old(out)@ + indented(lines(problem_text(failure@))),
{
    let text = failure.to_string();
    let chars = chars_of(text.as_str());
    let list = split_lines(chars.as_slice());
    let ghost all = texts(list@);
    let mut i: usize = 0;
    assert(all.skip(0) =~= all);
    while i < list.len()
        invariant
            i <= list@.len(),
            all == texts(list@),
            out@ + indented(all.skip(i as int)) =~= old(out)@ + indented(all),
        decreases list@.len() - i,
    {
        assert(all.skip(i as int)[0] == list@[i as int]@);
        assert(all.skip(i as int).drop_first() =~= all.skip(i + 1));
        if list[i].len() > 0 {
            push_text(out, "    ");
            push_chars(out, list[i].as_slice());
        }
        out.push('\n');
        i += 1;
    }
    assert(all.skip(i as int) =~= seq![]);
}

/// Nothing failed exactly when every case held up.
proof fn lemma_failed_none(list: Seq<CaseResult>)
    ensures
        failed(list).len() == 0 <==> forall|i: int|
            0 <= i < list.len() ==> (#[trigger] list[i]).problem is None,
        failed(list).len() <= list.len(),
    decreases list.len(),
{
    if list.len() > 0 {
        let rest = list.drop_first();
        lemma_failed_none(rest);
        if failed(list).len() == 0 {
            assert forall|i: int| 0 <= i < list.len() implies (#[trigger] list[i]).problem is None by {
                if i > 0 {
                    assert(list[i] == rest[i - 1]);
                }
            }
        } else if list[0].problem is None {
            let i = choose|i: int| 0 <= i < rest.len() && !((#[trigger] rest[i]).problem is None);
            assert(rest[i] == list[i + 1]);
        }
    }
}

impl Outcome {
    pub fn new(setup: Vec<Failure>, cases: Vec<CaseOutcome>) -> (r: Self)
        ensures
            r@ == (Findings { setup: problems(setup@), cases: results(cases@) }),
    {
        Outcome { setup, cases }
    }

    /// Failures that stopped the run before, or independently of, any fixture -- a
    /// fixture directory that does not exist, a scratch project that could not be
    /// written.
    pub fn setup_failures(&self) -> (r: &[Failure])
        ensures
            problems(r@) == self@.setup,
    {
        self.setup.as_slice()
    }

    /// Every fixture that ran, in the order it was registered.
    pub fn cases(&self) -> (r: &[CaseOutcome])
        ensures
            results(r@) == self@.cases,
    {
        self.cases.as_slice()
    }

    /// Just the fixtures that did not hold up.
    pub fn failures(&self) -> (r: Vec<&CaseOutcome>)
        ensures
            r@.map_values(|c: &CaseOutcome| c@) == failed(self@.cases),
    {
        let mut out: Vec<&CaseOutcome> = Vec::new();
        let ghost all = results(self.cases@);
        let mut i: usize = 0;
        assert(all.skip(0) =~= all);
        while i < self.cases.len()
            invariant
                i <= self.cases@.len(),
                all == results(self.cases@),
                out@.map_values(|c: &CaseOutcome| c@) + failed(all.skip(i as int)) =~= failed(all),
            decreases self.cases@.len() - i,
        {
            let ghost done = out@.map_values(|c: &CaseOutcome| c@);
            assert(all.skip(i as int)[0] == self.cases@[i as int]@);
            assert(all.skip(i as int).drop_first() =~= all.skip(i + 1));
            if !self.cases[i].is_success() {
                out.push(&self.cases[i]);
                assert(out@.map_values(|c: &CaseOutcome| c@) =~= done.push(self.cases@[i as int]@));
            }
            i += 1;
        }
        assert(all.skip(i as int) =~= seq![]);
        out
    }

    /// Whether every fixture held up and setup was clean.
    pub fn is_success(&self) -> (r: bool)
        ensures
            r == succeeded(self@),
    {
        let failures = self.failures();
        proof {
            lemma_failed_none(self@.cases);
            assert(failures@.map_values(|c: &CaseOutcome| c@).len() == failures@.len());
        }
        self.setup.len() == 0 && failures.len() == 0
    }

    /// A plain-text report. No colour: a test harness that only reads well in
    /// colour reads badly in CI logs.
    pub fn report(&self) -> (r: String)
        ensures
            r@ == report_text(self@),
    {
        let failures = self.failures();
        assert(failures@.map_values(|c: &CaseOutcome| c@).len() == failures@.len());
        let count = to_decimal(failures.len());
        let total = to_decimal(self.cases.len());
        let mut out: Vec<char> = chars_of("nocompile: ");
        if self.setup.len() == 0 && failures.len() == 0 {
            push_chars(&mut out, total.as_slice());
            push_text(&mut out, " case(s) passed");
            return string_of(out.as_slice());
        }
        push_chars(&mut out, count.as_slice());
        push_text(&mut out, " of ");
        push_chars(&mut out, total.as_slice());
        push_text(&mut out, " case(s) failed\n");
        let ghost start = out@;

        let ghost all = problems(self.setup@);
        let mut i: usize = 0;
        assert(all.skip(0) =~= all);
        while i < self.setup.len()
            invariant
                i <= self.setup@.len(),
                all == problems(self.setup@),
                out@ + setup_report(all.skip(i as int)) =~= start + setup_report(all),
            decreases self.setup@.len() - i,
        {
            assert(all.skip(i as int)[0] == self.setup@[i as int]@);
            assert(all.skip(i as int).drop_first() =~= all.skip(i + 1));
            push_text(&mut out, "\nSETUP FAILED\n");
            indent(&mut out, &self.setup[i]);
            i += 1;
        }
        assert(all.skip(i as int) =~= seq![]);
        let ghost setup_done = out@;

        let ghost all = results(self.cases@);
        let mut i: usize = 0;
        assert(all.skip(0) =~= all);
        while i < self.cases.len()
            invariant
                i <= self.cases@.len(),
                all == results(self.cases@),
                out@ + case_report(all.skip(i as int)) =~= setup_done + case_report(all),
            decreases self.cases@.len() - i,
        {
            assert(all.skip(i as int)[0] == self.cases@[i as int]@);
            assert(all.skip(i as int).drop_first() =~= all.skip(i + 1));
            if let Some(failure) = self.cases[i].failure() {
                push_text(&mut out, "\nFAIL ");
                push_text(&mut out, self.cases[i].path());
                push_text(&mut out, " (");
                push_text(&mut out, self.cases[i].kind().label());
                push_text(&mut out, ")\n");
                indent(&mut out, failure);
            }
            i += 1;
        }
        assert(all.skip(i as int) =~= seq![]);
        string_of(out.as_slice())
    }

    /// The report to panic with, where something did not hold up.
    pub fn complaint(&self) -> (r: Option<String>)
        ensures
            optional(r) == (if succeeded(self@) {
                None
            } else {
                Some("\n"@ + report_text(self@) + "\n"@)
            }),
    {
        if self.is_success() {
            return None;
        }
        let mut out = chars_of("\n");
        let report = self.report();
        push_text(&mut out, report.as_str());
        push_text(&mut out, "\n");
        Some(string_of(out.as_slice()))
    }
}

// ---------------------------------------------------------------------------
// Laws.
// ---------------------------------------------------------------------------

/// What the report says of one setup failure.
pub open spec fn setup_entry(problem: Problem) -> Seq<char> {
    "\nSETUP FAILED\n"@ + indented(lines(problem_text(problem)))
}

/// What the report says of one case that did not hold up.
pub open spec fn case_entry(case: CaseResult, problem: Problem) -> Seq<char> {
    case_heading(case) + indented(lines(problem_text(problem)))
}

proof fn lemma_setup_report(list: Seq<Problem>, i: int) -> (r: (Seq<char>, Seq<char>))
    requires
        0 <= i < list.len(),
    ensures
        setup_report(list) == r.0 + setup_entry(list[i]) + r.1,
    decreases list.len(),
{
    let rest = list.drop_first();
    if i == 0 {
        assert(setup_report(list) =~= seq![] + setup_entry(list[0]) + setup_report(rest));
        (seq![], setup_report(rest))
    } else {
        let (front, back) = lemma_setup_report(rest, i - 1);
        assert(setup_report(list) =~= (setup_entry(list[0]) + front) + setup_entry(list[i])
            + back);
        (setup_entry(list[0]) + front, back)
    }
}

proof fn lemma_case_report(list: Seq<CaseResult>, i: int, problem: Problem) -> (r: (
    Seq<char>,
    Seq<char>,
))
    requires
        0 <= i < list.len(),
        list[i].problem == Some(problem),
    ensures
        case_report(list) == r.0 + case_entry(list[i], problem) + r.1,
    decreases list.len(),
{
    let rest = list.drop_first();
    if i == 0 {
        assert(case_report(list) =~= seq![] + case_entry(list[0], problem) + case_report(rest));
        (seq![], case_report(rest))
    } else {
        let (front, back) = lemma_case_report(rest, i - 1, problem);
        let first = match list[0].problem {
            Some(other) => case_entry(list[0], other),
            None => seq![],
        };
        assert(case_report(list) =~= (first + front) + case_entry(list[i], problem) + back);
        (first + front, back)
    }
}

/// A report says that the cases passed exactly when the run succeeded, and otherwise how
/// many of them failed.
pub proof fn law_the_report_says_whether_the_run_succeeded(findings: Findings)
    ensures
        succeeded(findings) <==> report_text(findings) == "nocompile: "@ + decimal(
            findings.cases.len(),
        ) + " case(s) passed"@,
        !succeeded(findings) ==> starts_with(
            report_text(findings),
            "nocompile: "@ + decimal(failed(findings.cases).len()) + " of "@ + decimal(
                findings.cases.len(),
            ) + " case(s) failed\n"@,
        ),
{
    lemma_failed_none(findings.cases);
    let count = decimal(failed(findings.cases).len());
    let total = decimal(findings.cases.len());
    let text = report_text(findings);
    if !succeeded(findings) {
        let opening = "nocompile: "@ + count + " of "@ + total + " case(s) failed\n"@;
        assert(text.subrange(0, opening.len() as int) =~= opening);
        let passed = "nocompile: "@ + total + " case(s) passed"@;
        reveal_strlit("nocompile: ");
        reveal_strlit(" of ");
        reveal_strlit(" case(s) failed\n");
        reveal_strlit(" case(s) passed");
        lemma_decimal_digits(failed(findings.cases).len());
        lemma_decimal_digits(findings.cases.len());
        if text == passed {
            // Behind the number that both begin with, one goes on with ` of ` and the
            // other with ` case`.
            let at = (11 + count.len()) as int;
            if count.len() < total.len() {
                assert(text[at] == ' ');
                assert(passed[at] == total[count.len() as int]);
                assert(is_digit(total[count.len() as int]));
            } else if count.len() > total.len() {
                let short = (11 + total.len()) as int;
                assert(passed[short] == ' ');
                assert(text[short] == count[total.len() as int]);
                assert(is_digit(count[total.len() as int]));
            } else {
                assert(text[at + 1] == 'o');
                assert(passed[at + 1] == 'c');
            }
        }
    }
}

/// Every setup failure stands in the report, under a heading of its own, with all that
/// it says.
pub proof fn law_the_report_names_every_setup_failure(findings: Findings, i: int)
    requires
        0 <= i < findings.setup.len(),
    ensures
        has_text(report_text(findings), setup_entry(findings.setup[i])),
{
    let (front, back) = lemma_setup_report(findings.setup, i);
    let opening = "nocompile: "@ + decimal(failed(findings.cases).len()) + " of "@ + decimal(
        findings.cases.len(),
    ) + " case(s) failed\n"@;
    let after_it = back + case_report(findings.cases);
    assert(report_text(findings) =~= (opening + front) + setup_entry(findings.setup[i])
        + after_it);
    lemma_has_text(opening + front, setup_entry(findings.setup[i]), after_it);
}

/// Every case that did not hold up stands in the report, by its path and its kind, with
/// all that its failure says.
pub proof fn law_the_report_names_every_failing_case(findings: Findings, i: int, problem: Problem)
    requires
        0 <= i < findings.cases.len(),
        findings.cases[i].problem == Some(problem),
    ensures
        has_text(report_text(findings), case_entry(findings.cases[i], problem)),
{
    lemma_failed_none(findings.cases);
    let (front, back) = lemma_case_report(findings.cases, i, problem);
    let opening = "nocompile: "@ + decimal(failed(findings.cases).len()) + " of "@ + decimal(
        findings.cases.len(),
    ) + " case(s) failed\n"@;
    let before_it = opening + setup_report(findings.setup) + front;
    assert(report_text(findings) =~= before_it + case_entry(findings.cases[i], problem) + back);
    lemma_has_text(before_it, case_entry(findings.cases[i], problem), back);
}

// ---------------------------------------------------------------------------
// What a failure and a report say.
// ---------------------------------------------------------------------------

/// What stands in a text, stands in it whatever is put around.
proof fn lemma_part(front: Seq<char>, part: Seq<char>, back: Seq<char>, whole: Seq<char>)
    requires
        whole == front + part + back,
    ensures
        has_text(whole, part),
{
    lemma_has_text(front, part, back);
}

/// How the words before the two manifests end.
proof fn lemma_manifest_words() -> (r: (Seq<char>, Seq<char>))
    ensures
        MANIFEST_MISMATCH@ == r.0 + "handed to cargo: "@,
        MANIFEST_REPORTED@ == r.1 + "reported back:   "@,
{
    reveal_strlit("handed to cargo: ");
    reveal_strlit("reported back:   ");
    reveal_strlit("\n    reported back:   ");
    reveal_strlit(
        "cargo reported every message against a different spelling of the scratch project's manifest path, so none of them could be attributed to a fixture.\n\n    handed to cargo: ",
    );
    let front = MANIFEST_MISMATCH@.take(MANIFEST_MISMATCH@.len() - 17);
    let back = MANIFEST_REPORTED@.take(MANIFEST_REPORTED@.len() - 17);
    assert(MANIFEST_MISMATCH@ =~= front + "handed to cargo: "@);
    assert(MANIFEST_REPORTED@ =~= back + "reported back:   "@);
    (front, back)
}

/// A failure says all that it knows: what was said of the fixture or by cargo, which golden
/// it is about and how the two sides differ, which directory, which manifests, and what
/// could not be done and why.
pub proof fn law_a_failure_says_all_it_knows(problem: Problem)
    ensures
        match problem {
            Problem::Compiled => problem_text(problem)
                == "expected a compile error, but the fixture compiled"@,
            Problem::DidNotCompile { stderr } => problem_text(problem)
                == "expected the fixture to compile, but it did not:\n\n"@ + stderr,
            Problem::NoDiagnostics { stderr } => starts_with(
                problem_text(problem),
                NO_DIAGNOSTICS@,
            ) && (trim(stderr).len() > 0 ==> ends_with(problem_text(problem), trim_end(stderr))),
            Problem::MissingGolden { golden } => has_text(problem_text(problem), golden)
                && has_text(problem_text(problem), "NOCOMPILE=overwrite"@),
            Problem::Mismatch { golden, expected, actual, mode } => {
                &&& has_text(
                    problem_text(problem),
                    "diagnostics do not match "@ + golden + " ("@ + mode.name() + " mode)"@,
                )
                &&& has_text(
                    problem_text(problem),
                    unified_text(expected, actual, golden, "actual"@),
                )
                &&& lines(expected) != lines(actual) ==> has_text(
                    problem_text(problem),
                    ", first difference at line "@ + decimal(
                        differs_at(lines(expected), lines(actual))->0,
                    ),
                )
            },
            Problem::NoFixtures { directory } => has_text(
                problem_text(problem),
                "no .rs fixtures in "@ + directory,
            ),
            Problem::NothingRegistered => has_text(
                problem_text(problem),
                "no fixtures were registered"@,
            ),
            Problem::Cargo { message } => ends_with(problem_text(problem), message),
            Problem::ManifestMismatch { handed, reported } => has_text(
                problem_text(problem),
                "handed to cargo: "@ + handed,
            ) && has_text(problem_text(problem), "reported back:   "@ + reported),
            Problem::Io { context, message } => problem_text(problem) == context + ": "@ + message,
        },
{
    let text = problem_text(problem);
    let none = Seq::<char>::empty();
    match problem {
        Problem::NoDiagnostics { stderr } => {
            assert(text.subrange(0, NO_DIAGNOSTICS@.len() as int) =~= NO_DIAGNOSTICS@);
            if trim(stderr).len() > 0 {
                let said = trim_end(stderr);
                assert(text.subrange(text.len() - said.len(), text.len() as int) =~= said);
            }
        },
        Problem::MissingGolden { golden } => {
            lemma_part(NO_GOLDEN@, golden, BLESS_TO_CREATE@, text);
            reveal_strlit("NOCOMPILE=overwrite");
            reveal_strlit("\nrun with NOCOMPILE=overwrite to create it, then read what it captured");
            let hint = BLESS_TO_CREATE@;
            let at: int = 10;
            assert(hint =~= hint.take(at) + "NOCOMPILE=overwrite"@ + hint.skip(at + 19));
            assert(text =~= (NO_GOLDEN@ + golden + hint.take(at)) + "NOCOMPILE=overwrite"@
                + hint.skip(at + 19));
            lemma_part(
                NO_GOLDEN@ + golden + hint.take(at),
                "NOCOMPILE=overwrite"@,
                hint.skip(at + 19),
                text,
            );
        },
        Problem::Mismatch { golden, expected, actual, mode } => {
            let opening = "diagnostics do not match "@ + golden + " ("@ + mode.name() + " mode)"@;
            let place = match differs_at(lines(expected), lines(actual)) {
                Some(n) => ", first difference at line "@ + decimal(n),
                None => seq![],
            };
            let diff = unified_text(expected, actual, golden, "actual"@);
            assert(text =~= opening + place + "\n\n"@ + diff + BLESS_TO_UPDATE@);
            assert(text =~= none + opening + (place + "\n\n"@ + diff + BLESS_TO_UPDATE@));
            lemma_part(none, opening, place + "\n\n"@ + diff + BLESS_TO_UPDATE@, text);
            lemma_part(opening + place + "\n\n"@, diff, BLESS_TO_UPDATE@, text);
            assert(text =~= opening + place + ("\n\n"@ + diff + BLESS_TO_UPDATE@));
            lemma_part(opening, place, "\n\n"@ + diff + BLESS_TO_UPDATE@, text);
        },
        Problem::NoFixtures { directory } => {
            let part = "no .rs fixtures in "@ + directory;
            assert(text =~= none + part + NOTHING_TESTED@);
            lemma_part(none, part, NOTHING_TESTED@, text);
        },
        Problem::NothingRegistered => {
            assert(text =~= none + "no fixtures were registered"@ + NOTHING_TESTED@);
            lemma_part(none, "no fixtures were registered"@, NOTHING_TESTED@, text);
        },
        Problem::Cargo { message } => {
            assert(text.subrange(text.len() - message.len(), text.len() as int) =~= message);
        },
        Problem::ManifestMismatch { handed, reported } => {
            let (front, back) = lemma_manifest_words();
            let rest = MANIFEST_REPORTED@ + reported + MANIFEST_ADVICE@;
            assert(text =~= front + ("handed to cargo: "@ + handed) + rest);
            lemma_part(front, "handed to cargo: "@ + handed, rest, text);
            assert(text =~= (MANIFEST_MISMATCH@ + handed + back) + ("reported back:   "@
                + reported) + MANIFEST_ADVICE@);
            lemma_part(
                MANIFEST_MISMATCH@ + handed + back,
                "reported back:   "@ + reported,
                MANIFEST_ADVICE@,
                text,
            );
        },
        _ => {},
    }
}

/// A failing case is reported by its path and its kind, and every line of what its failure
/// says stands beneath, set in.
pub proof fn law_a_failing_case_is_reported_in_full(
    findings: Findings,
    i: int,
    problem: Problem,
    k: int,
)
    requires
        0 <= i < findings.cases.len(),
        findings.cases[i].problem == Some(problem),
        0 <= k < lines(problem_text(problem)).len(),
        lines(problem_text(problem))[k].len() > 0,
    ensures
        ({
            let case = findings.cases[i];
            let kind = if case.kind == Kind::Pass {
                "pass"@
            } else {
                "compile_fail"@
            };
            has_text(report_text(findings), "\nFAIL "@ + case.path + " ("@ + kind + ")\n"@)
        }),
        has_text(
            report_text(findings),
            "    "@ + lines(problem_text(problem))[k] + seq!['\n'],
        ),
{
    let case = findings.cases[i];
    let list = lines(problem_text(problem));
    let entry = case_entry(case, problem);
    let text = report_text(findings);
    law_the_report_names_every_failing_case(findings, i, problem);
    let at = choose|at: int| occurs_at(text, entry, at);
    assert(text =~= text.take(at) + entry + text.skip(at + entry.len()));
    let head = case_heading(case);
    lemma_part(text.take(at), head, indented(list) + text.skip(at + entry.len()), text.take(at) + head
        + (indented(list) + text.skip(at + entry.len())));
    assert(text =~= text.take(at) + head + (indented(list) + text.skip(at + entry.len())));
    let (front, back) = lemma_indented_line(list, k);
    let line = "    "@ + list[k] + seq!['\n'];
    assert(text =~= (text.take(at) + head + front) + line + (back + text.skip(at + entry.len())));
    lemma_part(
        text.take(at) + head + front,
        line,
        back + text.skip(at + entry.len()),
        text,
    );
}

/// A setup failure is reported with every line of what it says, set in.
pub proof fn law_a_setup_failure_is_reported_in_full(findings: Findings, i: int, k: int)
    requires
        0 <= i < findings.setup.len(),
        0 <= k < lines(problem_text(findings.setup[i])).len(),
        lines(problem_text(findings.setup[i]))[k].len() > 0,
    ensures
        has_text(report_text(findings), "\nSETUP FAILED\n"@),
        has_text(
            report_text(findings),
            "    "@ + lines(problem_text(findings.setup[i]))[k] + seq!['\n'],
        ),
{
    let list = lines(problem_text(findings.setup[i]));
    let entry = setup_entry(findings.setup[i]);
    let text = report_text(findings);
    law_the_report_names_every_setup_failure(findings, i);
    let at = choose|at: int| occurs_at(text, entry, at);
    let rest = text.skip(at + entry.len());
    assert(text =~= text.take(at) + entry + rest);
    let head = "\nSETUP FAILED\n"@;
    assert(text =~= text.take(at) + head + (indented(list) + rest));
    lemma_part(text.take(at), head, indented(list) + rest, text);
    let (front, back) = lemma_indented_line(list, k);
    let line = "    "@ + list[k] + seq!['\n'];
    assert(text =~= (text.take(at) + head + front) + line + (back + rest));
    lemma_part(text.take(at) + head + front, line, back + rest, text);
}

proof fn lemma_indented_line(list: Seq<Seq<char>>, k: int) -> (r: (Seq<char>, Seq<char>))
    requires
        0 <= k < list.len(),
        list[k].len() > 0,
    ensures
        indented(list) == r.0 + ("    "@ + list[k] + seq!['\n']) + r.1,
    decreases k,
{
    let rest = list.drop_first();
    if k == 0 {
        assert(indented(list) =~= seq![] + ("    "@ + list[0] + seq!['\n']) + indented(rest));
        (seq![], indented(rest))
    } else {
        let (front, back) = lemma_indented_line(rest, k - 1);
        let first = (if list[0].len() == 0 {
            seq![]
        } else {
            "    "@ + list[0]
        }) + seq!['\n'];
        assert(indented(list) =~= (first + front) + ("    "@ + list[k] + seq!['\n']) + back);
        (first + front, back)
    }
}

/// The failures of a run are the cases with a problem, all of them and in order: those of a
/// first part, and then those of the rest.
pub proof fn law_every_problem_is_a_failure(
    first: Seq<CaseResult>,
    second: Seq<CaseResult>,
    case: CaseResult,
)
    ensures
        failed(first + second) == failed(first) + failed(second),
        failed(seq![case]) == (if case.problem is Some {
            seq![case]
        } else {
            seq![]
        }),
    decreases first.len(),
{
    let one = seq![case];
    assert(one.drop_first() =~= seq![]);
    assert(failed(one.drop_first()) =~= seq![]);
    assert(failed(one) =~= (if case.problem is Some {
        seq![case]
    } else {
        seq![]
    }));
    let all = first + second;
    if first.len() == 0 {
        assert(all =~= second);
        assert(failed(first) + failed(second) =~= failed(second));
    } else {
        law_every_problem_is_a_failure(first.drop_first(), second, case);
        assert(all[0] == first[0]);
        assert(all.drop_first() =~= first.drop_first() + second);
        assert(failed(all) =~= failed(first) + failed(second));
    }
}

/// A report opens with how many cases failed, and of how many; one of a run without a
/// failure says how many passed, and nothing else.
pub proof fn law_a_report_opens_with_the_count(findings: Findings)
    ensures
        succeeded(findings) ==> report_text(findings) == "nocompile: "@ + decimal(
            findings.cases.len(),
        ) + " case(s) passed"@,
        !succeeded(findings) ==> starts_with(
            report_text(findings),
            "nocompile: "@ + decimal(failed(findings.cases).len()) + " of "@ + decimal(
                findings.cases.len(),
            ) + " case(s) failed\n"@,
        ),
{
    lemma_failed_none(findings.cases);
    let opening = "nocompile: "@ + decimal(failed(findings.cases).len()) + " of "@ + decimal(
        findings.cases.len(),
    ) + " case(s) failed\n"@;
    if !succeeded(findings) {
        assert(report_text(findings) =~= opening + setup_report(findings.setup) + case_report(
            findings.cases,
        ));
        assert(report_text(findings).subrange(0, opening.len() as int) =~= opening);
    }
}

/// A run succeeded if nothing was wrong with its setup and every case held up, and only
/// then.
pub proof fn law_one_problem_is_enough(findings: Findings, i: int)
    ensures
        findings.setup.len() > 0 ==> !succeeded(findings),
        0 <= i < findings.cases.len() && findings.cases[i].problem is Some ==> !succeeded(findings),
        findings.setup.len() == 0 && failed(findings.cases).len() == 0 ==> succeeded(findings),
{
    lemma_failed_none(findings.cases);
}

} // verus!

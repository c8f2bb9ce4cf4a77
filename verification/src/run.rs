//! A run, as a conversation with the world.
//!
//! A run alternates decisions with work only the outside can do: taking a lock,
//! reading and writing files, running cargo. The decisions are here. At each point a
//! [`Run`] says what it wants done, is told how that went, and moves on, until it is
//! finished and has an outcome.
use crate::cases::{
    blessed, blesses, compared, examined, fixtures, golden_in, golden_of, golden_path, io_failure,
    law_only_a_real_failure_is_blessed, places_of, two, written_in, Case, Check, Exam, Fixture,
    Suite, TestCases,
};
use crate::compare::filtered;
use crate::compile::{
    arguments, assignments, attributed, blamed, first_yes, handed, ingest, invocation, is_withheld,
    law_the_build_is_cleared, mismatched, overrides, overriding, taken_in, withheld,
    withheld_among, Build, Evidence,
};
use crate::environment::{Environment, Surroundings};
use crate::outcome::{
    problem_in, problems, results, succeeded, CaseOutcome, CaseResult, Failure, Findings, Kind,
    Outcome, Problem,
};
use crate::path::path_join;
use crate::scratch::{bin_of, bin_path_in, manifest, manifest_in, manifest_text};
use crate::text::{chars_of, lines, string_of, strings, trim, trim_end, trimmed_end};
use vstd::prelude::*;

verus! {

/// What a run wants done, as a value to reason about.
pub enum Wish {
    Lock(Seq<char>),
    CreateDir(Seq<char>),
    Read(Seq<char>),
    Write(Seq<char>, Seq<char>),
    Build(Seq<Seq<char>>, Seq<char>, Seq<Seq<char>>, Seq<(Seq<char>, Seq<char>)>),
    SameFile(Seq<char>, Seq<Seq<char>>),
    ReadGolden(Seq<char>),
    WriteGolden(Seq<char>, Seq<char>),
    Nothing,
}

/// What a run wants done.
#[derive(Debug)]
pub enum Request {
    /// Create this directory and take the exclusive lock on it, blocking until it is
    /// free, to hold until the run is finished. Every fixture of a run is written into
    /// the same scratch project, so two runs at once would compile each other's
    /// fixtures.
    Lock { root: String },
    /// Create this directory and those above it.
    CreateDir { path: String },
    /// Read this file.
    Read { path: String },
    /// See to it that this file holds these contents, creating the directories above
    /// it.
    Write { path: String, contents: String },
    /// Run cargo with these arguments in this directory, with the variables of this
    /// process but for those removed and with those set.
    Build {
        arguments: Vec<String>,
        directory: String,
        removed: Vec<String>,
        set: Vec<(String, String)>,
    },
    /// Say of each of these paths whether it names the same file as ours.
    SameFile { ours: String, others: Vec<String> },
    /// Read this golden, telling a missing file from one that cannot be read.
    ReadGolden { path: String },
    /// Write this golden.
    WriteGolden { path: String, contents: String },
    /// Nothing: the run is finished.
    Nothing,
}

impl View for Request {
    type V = Wish;

    open spec fn view(&self) -> Wish {
        match self {
            Request::Lock { root } => Wish::Lock(root@),
            Request::CreateDir { path } => Wish::CreateDir(path@),
            Request::Read { path } => Wish::Read(path@),
            Request::Write { path, contents } => Wish::Write(path@, contents@),
            Request::Build { arguments, directory, removed, set } => Wish::Build(
                strings(arguments@),
                directory@,
                strings(removed@),
                assignments(set@),
            ),
            Request::SameFile { ours, others } => Wish::SameFile(ours@, strings(others@)),
            Request::ReadGolden { path } => Wish::ReadGolden(path@),
            Request::WriteGolden { path, contents } => Wish::WriteGolden(path@, contents@),
            Request::Nothing => Wish::Nothing,
        }
    }
}

/// How it went, as a value to reason about.
pub enum Answer {
    Done(Result<(), Seq<char>>),
    Text(Result<Seq<char>, Seq<char>>),
    Built(Result<(Seq<char>, Seq<char>), Seq<char>>),
    Same(Seq<bool>),
    Golden(Result<Option<Seq<char>>, Seq<char>>),
}

/// How it went. Errors are rendered.
#[derive(Debug)]
pub enum Reply {
    /// Of a lock, a directory, or anything written.
    Done(Result<(), String>),
    /// Of a file that was read.
    Text(Result<String, String>),
    /// Of cargo: its stdout and its stderr.
    Built(Result<(String, String), String>),
    /// Of each path, whether it names the same file.
    Same(Vec<bool>),
    /// Of a golden: its text, or nothing where there is no such file.
    Golden(Result<Option<String>, String>),
}

impl View for Reply {
    type V = Answer;

    open spec fn view(&self) -> Answer {
        match self {
            Reply::Done(result) => Answer::Done(written_in(*result)),
            Reply::Text(Ok(text)) => Answer::Text(Ok(text@)),
            Reply::Text(Err(error)) => Answer::Text(Err(error@)),
            Reply::Built(Ok((stdout, stderr))) => Answer::Built(Ok((stdout@, stderr@))),
            Reply::Built(Err(error)) => Answer::Built(Err(error@)),
            Reply::Same(answers) => Answer::Same(answers@),
            Reply::Golden(result) => Answer::Golden(golden_in(*result)),
        }
    }
}

/// How far a run has come.
pub enum Point {
    /// Waiting for the scratch project's lock.
    Locking,
    /// Waiting for the scratch target directory.
    Preparing,
    /// Waiting for the source of a fixture.
    Reading(int),
    /// Waiting for the source of a fixture to be staged.
    Writing(int, Seq<char>),
    /// Waiting for the manifest to be written.
    Manifest,
    /// Waiting for cargo.
    Building,
    /// Waiting to hear which paths name the scratch project's own manifest.
    Comparing(Evidence),
    /// Waiting for a golden to be written, past the fixtures already done.
    Blessing(Evidence, Seq<CaseResult>, Seq<char>),
    /// Waiting for a golden to be read, past the fixtures already done.
    Opening(Evidence, Seq<CaseResult>, Seq<char>),
    /// Finished.
    Finished(Findings),
}

// ---------------------------------------------------------------------------
// What happens at each point.
// ---------------------------------------------------------------------------

/// Finished before any fixture was looked at.
pub open spec fn stopped(suite: Suite, problem: Problem) -> Point {
    Point::Finished(Findings { setup: suite.setup.push(problem), cases: seq![] })
}

/// Finished because something could not be done.
pub open spec fn stuck(suite: Suite, context: Seq<char>, error: Seq<char>) -> Point {
    stopped(suite, Problem::Io { context, message: error })
}

/// Where a run starts. A suite that asserts nothing must not report success.
pub open spec fn start(suite: Suite) -> Point {
    if suite.cases.len() == 0 {
        Point::Finished(
            Findings {
                setup: if suite.setup.len() == 0 {
                    seq![Problem::NothingRegistered]
                } else {
                    suite.setup
                },
                cases: seq![],
            },
        )
    } else {
        Point::Locking
    }
}

/// Staging the fixtures, from the `i`th on. A source is copied verbatim. The manifest
/// comes last.
pub open spec fn staging(suite: Suite, i: int) -> Point {
    if 0 <= i < suite.cases.len() {
        Point::Reading(i)
    } else {
        Point::Manifest
    }
}

/// The result of one fixture.
pub open spec fn result_of(fixture: Fixture, problem: Option<Problem>) -> CaseResult {
    CaseResult { path: fixture.relative, kind: fixture.kind, problem }
}

/// Going through the fixtures in the order they were registered, past those already
/// done, up to the first that needs its golden.
pub open spec fn checking(
    suite: Suite,
    env: Surroundings,
    evidence: Evidence,
    done: Seq<CaseResult>,
) -> Point
    decreases suite.cases.len() - done.len(),
{
    if done.len() >= suite.cases.len() {
        Point::Finished(Findings { setup: suite.setup, cases: done })
    } else {
        let fixture = suite.cases[done.len() as int];
        match examined(suite, env, evidence, fixture) {
            Exam::Settled(problem) => checking(
                suite,
                env,
                evidence,
                done.push(result_of(fixture, problem)),
            ),
            Exam::Bless(actual) => Point::Blessing(evidence, done, actual),
            Exam::Compare(actual) => Point::Opening(evidence, done, actual),
        }
    }
}

/// Past the question of what names our own manifest. A mismatch comes before the blame
/// on another package, which would otherwise be given with the fixtures' own
/// diagnostics.
pub open spec fn sorted_out(
    suite: Suite,
    env: Surroundings,
    evidence: Evidence,
    answers: Seq<bool>,
) -> Point {
    match mismatched(evidence, answers) {
        Some(reported) => stopped(
            suite,
            Problem::ManifestMismatch { handed: manifest_in(places_of(suite, env)), reported },
        ),
        None => match blamed(evidence) {
            Some(message) => stopped(suite, Problem::Cargo { message }),
            None => checking(suite, env, evidence, seq![]),
        },
    }
}

/// The evidence before cargo has said anything on stdout.
pub open spec fn silence(stderr: Seq<char>) -> Evidence {
    Evidence {
        messages: Map::empty(),
        compiled: Set::empty(),
        foreign: seq![],
        other_manifests: seq![],
        stderr,
        started: false,
    }
}

/// Past the build. Where cargo never reached the fixtures, nothing it said is about
/// them. Which paths name our manifest is asked only where nothing was attributed and
/// there is another path to ask about.
pub open spec fn built(suite: Suite, env: Surroundings, stdout: Seq<char>, stderr: Seq<char>) -> Point {
    let (evidence, wrong) = taken_in(
        silence(stderr),
        lines(stdout),
        manifest_in(places_of(suite, env)),
    );
    match wrong {
        Some(error) => stuck(suite, "could not run cargo for the scratch project"@, error),
        None => if !evidence.started {
            stopped(suite, Problem::Cargo { message: trim_end(stderr) })
        } else if !attributed(evidence) && evidence.other_manifests.len() > 0 {
            Point::Comparing(evidence)
        } else {
            sorted_out(suite, env, evidence, seq![])
        },
    }
}

/// The point after an answer. An answer to something that was not asked changes
/// nothing.
pub open spec fn step(suite: Suite, env: Surroundings, point: Point, answer: Answer) -> Point {
    match (point, answer) {
        (Point::Locking, Answer::Done(Ok(_))) => Point::Preparing,
        (Point::Locking, Answer::Done(Err(error))) => stuck(
            suite,
            "could not lock the scratch project at "@ + places_of(suite, env).root,
            error,
        ),
        (Point::Preparing, Answer::Done(Ok(_))) => staging(suite, 0),
        (Point::Preparing, Answer::Done(Err(error))) => stuck(
            suite,
            "could not create the scratch target directory at "@ + places_of(suite, env).target,
            error,
        ),
        (Point::Reading(i), Answer::Text(Ok(source))) => Point::Writing(i, source),
        (Point::Reading(i), Answer::Text(Err(error))) => stuck(
            suite,
            "could not read the fixture "@ + suite.cases[i].relative,
            error,
        ),
        (Point::Writing(i, _), Answer::Done(Ok(_))) => staging(suite, i + 1),
        (Point::Writing(i, _), Answer::Done(Err(error))) => stuck(
            suite,
            "could not write "@ + bin_path_in(
                places_of(suite, env),
                bin_of(suite.cases[i].relative),
            ),
            error,
        ),
        (Point::Manifest, Answer::Done(Ok(_))) => Point::Building,
        (Point::Manifest, Answer::Done(Err(error))) => stuck(
            suite,
            "could not write "@ + manifest_in(places_of(suite, env)),
            error,
        ),
        (Point::Building, Answer::Built(Ok((stdout, stderr)))) => built(suite, env, stdout, stderr),
        (Point::Building, Answer::Built(Err(error))) => stuck(
            suite,
            "could not run cargo for the scratch project"@,
            error,
        ),
        (Point::Comparing(evidence), Answer::Same(answers)) => sorted_out(
            suite,
            env,
            evidence,
            answers,
        ),
        (Point::Blessing(evidence, done, _), Answer::Done(written)) => {
            let fixture = suite.cases[done.len() as int];
            checking(
                suite,
                env,
                evidence,
                done.push(result_of(fixture, blessed(written, fixture.relative))),
            )
        },
        (Point::Opening(evidence, done, actual), Answer::Golden(golden)) => {
            let fixture = suite.cases[done.len() as int];
            checking(
                suite,
                env,
                evidence,
                done.push(
                    result_of(fixture, compared(golden, actual, suite.mode, fixture.relative)),
                ),
            )
        },
        _ => point,
    }
}

/// The bins of a list of fixtures.
pub open spec fn bins_of(list: Seq<Fixture>) -> Seq<Seq<char>> {
    list.map_values(|f: Fixture| bin_of(f.relative))
}

/// What a run wants done at a point.
pub open spec fn wish(suite: Suite, env: Surroundings, point: Point) -> Wish {
    let places = places_of(suite, env);
    match point {
        Point::Locking => Wish::Lock(places.root),
        Point::Preparing => Wish::CreateDir(places.target),
        Point::Reading(i) => Wish::Read(suite.cases[i].absolute),
        Point::Writing(i, source) => Wish::Write(
            bin_path_in(places, bin_of(suite.cases[i].relative)),
            source,
        ),
        Point::Manifest => Wish::Write(
            manifest_in(places),
            manifest_text(
                suite.edition,
                suite.dependencies,
                suite.raw_manifest_lines,
                bins_of(suite.cases),
            ),
        ),
        Point::Building => Wish::Build(
            invocation(places.target, manifest_in(places)),
            places.project,
            withheld_among(env.variables),
            overrides(),
        ),
        Point::Comparing(evidence) => Wish::SameFile(
            manifest_in(places),
            evidence.other_manifests,
        ),
        Point::Blessing(_, done, actual) => Wish::WriteGolden(
            golden_of(suite.cases[done.len() as int].absolute),
            actual,
        ),
        Point::Opening(_, done, _) => Wish::ReadGolden(
            golden_of(suite.cases[done.len() as int].absolute),
        ),
        Point::Finished(_) => Wish::Nothing,
    }
}

// ---------------------------------------------------------------------------
// What holds at every point.
// ---------------------------------------------------------------------------

/// Whether results are those of a suite's first fixtures, in the order they were
/// registered.
pub open spec fn covers(suite: Suite, done: Seq<CaseResult>) -> bool {
    done.len() <= suite.cases.len() && forall|i: int|
        0 <= i < done.len() ==> (#[trigger] done[i]).path == suite.cases[i].relative
            && done[i].kind == suite.cases[i].kind
}

/// What holds at every point of a run: there is something to run; a fixture being staged
/// is one of the suite's; a golden is written or read only for a fixture whose
/// examination asked for just that; and a finished run either never came to its
/// fixtures, and says why, or has a result for each of them.
pub open spec fn sound(suite: Suite, env: Surroundings, point: Point) -> bool {
    (suite.cases.len() > 0 || point is Finished) && match point {
        Point::Reading(i) => 0 <= i < suite.cases.len(),
        Point::Writing(i, _) => 0 <= i < suite.cases.len(),
        Point::Comparing(evidence) => evidence.started && !attributed(evidence),
        Point::Blessing(evidence, done, actual) => {
            &&& evidence.started
            &&& covers(suite, done)
            &&& done.len() < suite.cases.len()
            &&& examined(suite, env, evidence, suite.cases[done.len() as int]) == Exam::Bless(
                actual,
            )
        },
        Point::Opening(evidence, done, actual) => {
            &&& evidence.started
            &&& covers(suite, done)
            &&& done.len() < suite.cases.len()
            &&& examined(suite, env, evidence, suite.cases[done.len() as int]) == Exam::Compare(
                actual,
            )
        },
        Point::Finished(findings) => {
            ||| findings.cases.len() == 0 && findings.setup.len() > 0
            ||| findings.setup == suite.setup && covers(suite, findings.cases)
                && findings.cases.len() == suite.cases.len() && suite.cases.len() > 0
        },
        _ => true,
    }
}

proof fn lemma_checking_is_sound(
    suite: Suite,
    env: Surroundings,
    evidence: Evidence,
    done: Seq<CaseResult>,
)
    requires
        suite.cases.len() > 0,
        evidence.started,
        covers(suite, done),
    ensures
        sound(suite, env, checking(suite, env, evidence, done)),
    decreases suite.cases.len() - done.len(),
{
    if done.len() < suite.cases.len() {
        let fixture = suite.cases[done.len() as int];
        if let Exam::Settled(problem) = examined(suite, env, evidence, fixture) {
            let more = done.push(result_of(fixture, problem));
            lemma_covers_push(suite, done, problem);
            lemma_checking_is_sound(suite, env, evidence, more);
        }
    }
}

proof fn lemma_covers_push(suite: Suite, done: Seq<CaseResult>, problem: Option<Problem>)
    requires
        covers(suite, done),
        done.len() < suite.cases.len(),
    ensures
        covers(suite, done.push(result_of(suite.cases[done.len() as int], problem))),
{
    let more = done.push(result_of(suite.cases[done.len() as int], problem));
    assert forall|i: int| 0 <= i < more.len() implies (#[trigger] more[i]).path
        == suite.cases[i].relative && more[i].kind == suite.cases[i].kind by {
        if i < done.len() {
            assert(more[i] == done[i]);
        }
    }
}

/// A run starts sound, and every answer leaves it sound.
pub proof fn law_a_run_stays_sound(suite: Suite, env: Surroundings, point: Point, answer: Answer)
    requires
        sound(suite, env, point),
    ensures
        sound(suite, env, start(suite)),
        sound(suite, env, step(suite, env, point, answer)),
{
    match (point, answer) {
        (Point::Building, Answer::Built(Ok((stdout, stderr)))) => {
            let (evidence, wrong) = taken_in(
                silence(stderr),
                lines(stdout),
                manifest_in(places_of(suite, env)),
            );
            if evidence.started {
                lemma_checking_is_sound(suite, env, evidence, seq![]);
            }
        },
        (Point::Comparing(evidence), Answer::Same(answers)) => {
            lemma_checking_is_sound(suite, env, evidence, seq![]);
        },
        (Point::Blessing(evidence, done, _), Answer::Done(written)) => {
            let fixture = suite.cases[done.len() as int];
            let problem = blessed(written, fixture.relative);
            lemma_covers_push(suite, done, problem);
            lemma_checking_is_sound(suite, env, evidence, done.push(result_of(fixture, problem)));
        },
        (Point::Opening(evidence, done, actual), Answer::Golden(golden)) => {
            let fixture = suite.cases[done.len() as int];
            let problem = compared(golden, actual, suite.mode, fixture.relative);
            lemma_covers_push(suite, done, problem);
            lemma_checking_is_sound(suite, env, evidence, done.push(result_of(fixture, problem)));
        },
        _ => {},
    }
}

/// Whether an answer is one to what a run asked at a point.
pub open spec fn answers(point: Point, answer: Answer) -> bool {
    match point {
        Point::Locking | Point::Preparing | Point::Writing(..) | Point::Manifest
        | Point::Blessing(..) => answer is Done,
        Point::Reading(_) => answer is Text,
        Point::Building => answer is Built,
        Point::Comparing(_) => answer is Same,
        Point::Opening(..) => answer is Golden,
        Point::Finished(_) => false,
    }
}

/// How many answers a run can still need at most.
pub open spec fn left(suite: Suite, point: Point) -> int {
    let count = suite.cases.len() as int;
    match point {
        Point::Finished(_) => 0,
        Point::Blessing(_, done, _) => count - done.len(),
        Point::Opening(_, done, _) => count - done.len(),
        Point::Comparing(_) => count + 1,
        Point::Building => count + 2,
        Point::Manifest => count + 3,
        Point::Writing(i, _) => count + 4 + 2 * (count - 1 - i),
        Point::Reading(i) => count + 5 + 2 * (count - 1 - i),
        Point::Preparing => 3 * count + 4,
        Point::Locking => 3 * count + 5,
    }
}

proof fn lemma_checking_moves_on(
    suite: Suite,
    env: Surroundings,
    evidence: Evidence,
    done: Seq<CaseResult>,
)
    ensures
        done.len() <= suite.cases.len() ==> 0 <= left(
            suite,
            checking(suite, env, evidence, done),
        ) <= suite.cases.len() - done.len(),
    decreases suite.cases.len() - done.len(),
{
    if done.len() < suite.cases.len() {
        let fixture = suite.cases[done.len() as int];
        if let Exam::Settled(problem) = examined(suite, env, evidence, fixture) {
            lemma_checking_moves_on(
                suite,
                env,
                evidence,
                done.push(result_of(fixture, problem)),
            );
        }
    }
}

/// A run comes to an end: it asks for nothing only once it is finished, and every answer
/// to what it asked brings it nearer.
pub proof fn law_a_run_comes_to_an_end(
    suite: Suite,
    env: Surroundings,
    point: Point,
    answer: Answer,
)
    requires
        sound(suite, env, point),
    ensures
        wish(suite, env, point) is Nothing <==> point is Finished,
        left(suite, point) >= 0,
        answers(point, answer) ==> left(suite, step(suite, env, point, answer)) < left(suite, point),
{
    law_a_run_stays_sound(suite, env, point, answer);
    match (point, answer) {
        (Point::Building, Answer::Built(Ok((stdout, stderr)))) => {
            let (evidence, wrong) = taken_in(
                silence(stderr),
                lines(stdout),
                manifest_in(places_of(suite, env)),
            );
            lemma_checking_moves_on(suite, env, evidence, seq![]);
        },
        (Point::Comparing(evidence), Answer::Same(_)) => {
            lemma_checking_moves_on(suite, env, evidence, seq![]);
        },
        (Point::Blessing(evidence, done, _), Answer::Done(written)) => {
            let fixture = suite.cases[done.len() as int];
            let problem = blessed(written, fixture.relative);
            lemma_checking_moves_on(suite, env, evidence, done.push(result_of(fixture, problem)));
        },
        (Point::Opening(evidence, done, actual), Answer::Golden(golden)) => {
            let fixture = suite.cases[done.len() as int];
            let problem = compared(golden, actual, suite.mode, fixture.relative);
            lemma_checking_moves_on(suite, env, evidence, done.push(result_of(fixture, problem)));
        },
        _ => {},
    }
}

/// A run that succeeds had something to run, met no problem while its fixtures were
/// registered, and has a result for every one of them.
pub proof fn law_success_means_every_fixture_held_up(
    suite: Suite,
    env: Surroundings,
    findings: Findings,
)
    requires
        sound(suite, env, Point::Finished(findings)),
        succeeded(findings),
    ensures
        suite.cases.len() > 0,
        suite.setup.len() == 0,
        findings.cases == suite.cases.map_values(|f: Fixture| result_of(f, None)),
{
    let all = suite.cases.map_values(|f: Fixture| result_of(f, None));
    assert forall|i: int| 0 <= i < all.len() implies findings.cases[i] == #[trigger] all[i] by {
        assert(findings.cases[i].problem is None);
    }
    assert(findings.cases =~= all);
}

/// A run writes a golden only beside a fixture that must not compile and did not, only
/// where goldens were asked for, and never an empty one. Everything else it writes is
/// the source of a fixture or the manifest, in the scratch project.
pub proof fn law_a_run_writes_nothing_unasked(suite: Suite, env: Surroundings, point: Point)
    requires
        sound(suite, env, point),
    ensures
        match wish(suite, env, point) {
            Wish::WriteGolden(path, contents) => {
                &&& blesses(suite, env)
                &&& trim(contents).len() > 0
                &&& exists|i: int|
                    0 <= i < suite.cases.len() && path == golden_of(
                        (#[trigger] suite.cases[i]).absolute,
                    ) && suite.cases[i].kind == Kind::CompileFail
            },
            Wish::Write(path, contents) => {
                ||| path == manifest_in(places_of(suite, env))
                ||| exists|i: int|
                    0 <= i < suite.cases.len() && path == bin_path_in(
                        places_of(suite, env),
                        bin_of((#[trigger] suite.cases[i]).relative),
                    )
            },
            _ => true,
        },
{
    match point {
        Point::Blessing(evidence, done, actual) => {
            let fixture = suite.cases[done.len() as int];
            law_only_a_real_failure_is_blessed(suite, env, evidence, fixture);
        },
        Point::Writing(i, _) => {
            assert(suite.cases[i] == suite.cases[i]);
        },
        _ => {},
    }
}

/// The lock comes first: a run that has anything to do asks for it before anything else,
/// and goes on only once it has it.
pub proof fn law_the_lock_comes_first(suite: Suite, env: Surroundings, answer: Answer)
    ensures
        start(suite) is Finished || wish(suite, env, start(suite)) == Wish::Lock(
            places_of(suite, env).root,
        ),
        ({
            let next = step(suite, env, Point::Locking, answer);
            next is Finished || next is Locking || (answer matches Answer::Done(done)
                && done is Ok)
        }),
{
}

/// Where cargo never reached the fixtures, that is reported once, against the run, and
/// no fixture is blamed for it.
pub proof fn law_a_failure_of_cargo_is_reported_once(
    suite: Suite,
    env: Surroundings,
    stdout: Seq<char>,
    stderr: Seq<char>,
)
    requires
        ({
            let (evidence, wrong) = taken_in(
                silence(stderr),
                lines(stdout),
                manifest_in(places_of(suite, env)),
            );
            wrong is None && !evidence.started
        }),
    ensures
        step(suite, env, Point::Building, Answer::Built(Ok((stdout, stderr)))) == Point::Finished(
            Findings {
                setup: suite.setup.push(Problem::Cargo { message: trim_end(stderr) }),
                cases: seq![],
            },
        ),
{
}

/// The one cargo invocation of a run gets none of the withheld variables and no flags
/// from anywhere, whatever the variables of this process are.
pub proof fn law_a_run_builds_with_cleared_variables(
    suite: Suite,
    env: Surroundings,
    inherited: Map<Seq<char>, Seq<char>>,
)
    requires
        forall|name: Seq<char>| #[trigger]
            inherited.contains_key(name) ==> env.variables.contains(name),
    ensures
        match wish(suite, env, Point::Building) {
            Wish::Build(_, _, removed, set) => {
                let given = handed(inherited, removed, set);
                &&& given.contains_key("CARGO_ENCODED_RUSTFLAGS"@)
                &&& given["CARGO_ENCODED_RUSTFLAGS"@] == ""@
                &&& forall|name: Seq<char>|
                    is_withheld(name) ==> !#[trigger] given.contains_key(name)
            },
            _ => false,
        },
{
    law_the_build_is_cleared(inherited, env.variables);
}

/// A fixture's source is compiled as it was read.
pub proof fn law_a_source_is_staged_verbatim(
    suite: Suite,
    env: Surroundings,
    i: int,
    source: Seq<char>,
)
    requires
        0 <= i < suite.cases.len(),
    ensures
        wish(suite, env, Point::Reading(i)) == Wish::Read(suite.cases[i].absolute),
        wish(suite, env, step(suite, env, Point::Reading(i), Answer::Text(Ok(source))))
            == Wish::Write(
            bin_path_in(places_of(suite, env), bin_of(suite.cases[i].relative)),
            source,
        ),
{
}

// ---------------------------------------------------------------------------
// Running.
// ---------------------------------------------------------------------------

/// How far a run has come.
#[derive(Debug)]
enum Stage {
    Locking,
    Preparing,
    Reading(usize),
    Writing(usize, String),
    Manifest,
    Building,
    Comparing(Build),
    Blessing(Build, Vec<CaseOutcome>, String),
    Opening(Build, Vec<CaseOutcome>, String),
    Finished(Vec<Failure>, Vec<CaseOutcome>),
}

impl Stage {
    spec fn point(self) -> Point {
        match self {
            Stage::Locking => Point::Locking,
            Stage::Preparing => Point::Preparing,
            Stage::Reading(i) => Point::Reading(i as int),
            Stage::Writing(i, source) => Point::Writing(i as int, source@),
            Stage::Manifest => Point::Manifest,
            Stage::Building => Point::Building,
            Stage::Comparing(build) => Point::Comparing(build@),
            Stage::Blessing(build, done, actual) => Point::Blessing(
                build@,
                results(done@),
                actual@,
            ),
            Stage::Opening(build, done, actual) => Point::Opening(build@, results(done@), actual@),
            Stage::Finished(setup, cases) => Point::Finished(
                Findings { setup: problems(setup@), cases: results(cases@) },
            ),
        }
    }
}

/// A run of a suite, as a value to reason about.
pub struct Situation {
    pub suite: Suite,
    pub env: Surroundings,
    pub point: Point,
}

/// A run of a suite.
#[derive(Debug)]
pub struct Run<'a> {
    suite: &'a TestCases,
    env: &'a Environment,
    stage: Stage,
}

impl View for Run<'_> {
    type V = Situation;

    closed spec fn view(&self) -> Situation {
        Situation { suite: self.suite@, env: self.env@, point: self.stage.point() }
    }
}

/// The problems of a suite, with one more.
fn with_one_more(setup: &Vec<Failure>, failure: Failure) -> (r: Vec<Failure>)
    ensures
        problems(r@) == problems(setup@).push(failure@),
{
    let mut out = copied_problems(setup);
    let ghost done = problems(out@);
    out.push(failure);
    assert(problems(out@) =~= done.push(failure@));
    out
}

fn copied_problems(setup: &Vec<Failure>) -> (r: Vec<Failure>)
    ensures
        problems(r@) == problems(setup@),
{
    let mut out: Vec<Failure> = Vec::new();
    let mut i: usize = 0;
    while i < setup.len()
        invariant
            i <= setup@.len(),
            problems(out@) =~= problems(setup@).take(i as int),
        decreases setup@.len() - i,
    {
        let ghost done = problems(out@);
        let failure = setup[i].clone();
        out.push(failure);
        assert(problems(out@) =~= done.push(failure@));
        i += 1;
    }
    assert(problems(setup@).take(i as int) =~= problems(setup@));
    out
}

fn stop(suite: &TestCases, failure: Failure) -> (r: Stage)
    ensures
        r.point() == stopped(suite@, failure@),
{
    let cases: Vec<CaseOutcome> = Vec::new();
    assert(results(cases@) =~= seq![]);
    Stage::Finished(with_one_more(&suite.setup, failure), cases)
}

fn stop_on(suite: &TestCases, context: String, error: String) -> (r: Stage)
    ensures
        r.point() == stuck(suite@, context@, error@),
{
    stop(suite, io_failure(context, error))
}

fn stage_from(suite: &TestCases, i: usize) -> (r: Stage)
    ensures
        r.point() == staging(suite@, i as int),
{
    if i < suite.cases.len() {
        Stage::Reading(i)
    } else {
        Stage::Manifest
    }
}

/// Add the result of the next fixture.
fn record(case: &Case, done: &mut Vec<CaseOutcome>, result: Result<(), Failure>)
    ensures
        results(final(done)@) == results(old(done)@).push(result_of(case@, problem_in(result))),
{
    let ghost before_push = results(done@);
    let outcome = CaseOutcome::new(case.relative.clone(), case.kind, result);
    done.push(outcome);
    assert(results(done@) =~= before_push.push(outcome@));
}

/// Go through the fixtures past those already done, up to the first that needs its
/// golden.
fn check_from(
    suite: &TestCases,
    env: &Environment,
    build: Build,
    earlier: Vec<CaseOutcome>,
) -> (r: Stage)
    ensures
        r.point() == checking(suite@, env@, build@, results(earlier@)),
{
    let mut done = earlier;
    while done.len() < suite.cases.len()
        invariant
            checking(suite@, env@, build@, results(done@)) == checking(
                suite@,
                env@,
                build@,
                results(earlier@),
            ),
        decreases suite.cases@.len() - done@.len(),
    {
        let i: usize = done.len();
        assert(results(done@).len() == i);
        assert(suite@.cases[i as int] == suite.cases@[i as int]@);
        match suite.check_case(env, &suite.cases[i], &build) {
            Check::Settled(result) => {
                record(&suite.cases[i], &mut done, result);
                assert(results(done@).len() == done@.len());
            },
            Check::Bless(actual) => {
                return Stage::Blessing(build, done, actual);
            },
            Check::Compare(actual) => {
                return Stage::Opening(build, done, actual);
            },
        }
    }
    assert(results(done@).len() == done@.len());
    Stage::Finished(copied_problems(&suite.setup), done)
}

/// Past the question of what names our own manifest.
fn sort_out(suite: &TestCases, env: &Environment, build: Build, answers: &Vec<bool>) -> (r: Stage)
    ensures
        r.point() == sorted_out(suite@, env@, build@, answers@),
{
    let layout = suite.layout(env);
    let ours = layout.manifest();
    if let Some((handed, reported)) = build.manifest_mismatch(ours.as_str(), answers) {
        return stop(suite, Failure::ManifestMismatch { handed, reported });
    }
    if let Some(message) = build.nothing_built() {
        return stop(suite, Failure::Cargo { message });
    }
    let done: Vec<CaseOutcome> = Vec::new();
    assert(results(done@) =~= seq![]);
    check_from(suite, env, build, done)
}

/// Past the build.
fn take_build(suite: &TestCases, env: &Environment, stdout: String, stderr: String) -> (r: Stage)
    ensures
        r.point() == built(suite@, env@, stdout@, stderr@),
{
    let layout = suite.layout(env);
    let ours = layout.manifest();
    let mut build = Build::new(stderr);
    assert(build@ == silence(stderr@));
    if let Err(error) = ingest(&mut build, stdout.as_str(), ours.as_str()) {
        return stop_on(suite, "could not run cargo for the scratch project".to_owned(), error);
    }
    // Cargo never reached the fixtures, so nothing it said is about them. Reporting
    // this per case would blame every fixture for one manifest.
    if !build.started {
        proof {
            lemma_stderr_kept(silence(stderr@), lines(stdout@), manifest_in(layout@));
        }
        let chars = chars_of(build.stderr.as_str());
        let message = string_of(trimmed_end(chars.as_slice()));
        return stop(suite, Failure::Cargo { message });
    }
    assert(strings(build.other_manifests@).len() == build.other_manifests@.len());
    if !build.anything_attributed() && build.other_manifests.len() > 0 {
        return Stage::Comparing(build);
    }
    let answers: Vec<bool> = Vec::new();
    assert(answers@ =~= seq![]);
    sort_out(suite, env, build, &answers)
}

/// Nothing cargo says on stdout changes what it said on stderr.
proof fn lemma_stderr_kept(evidence: Evidence, list: Seq<Seq<char>>, manifest: Seq<char>)
    ensures
        taken_in(evidence, list, manifest).0.stderr == evidence.stderr,
    decreases list.len(),
{
    if list.len() > 0 {
        let (next, wrong) = crate::compile::heard(evidence, list[0], manifest);
        assert(next.stderr == evidence.stderr);
        if wrong is None {
            lemma_stderr_kept(next, list.drop_first(), manifest);
        }
    }
}

impl TestCases {
    /// Start a run of every registered fixture. It never panics: what happened is in
    /// the outcome it comes to.
    pub fn run<'a>(&'a self, env: &'a Environment) -> (r: Run<'a>)
        ensures
            r@ == (Situation { suite: self@, env: env@, point: start(self@) }),
    {
        let stage = if self.cases.len() == 0 {
            let cases: Vec<CaseOutcome> = Vec::new();
            assert(results(cases@) =~= seq![]);
            assert(problems(self.setup@).len() == self.setup@.len());
            if self.setup.len() == 0 {
                let mut setup: Vec<Failure> = Vec::new();
                setup.push(Failure::NothingRegistered);
                assert(problems(setup@) =~= seq![Problem::NothingRegistered]);
                Stage::Finished(setup, cases)
            } else {
                Stage::Finished(copied_problems(&self.setup), cases)
            }
        } else {
            Stage::Locking
        };
        assert(self@.cases.len() == self.cases@.len());
        Run { suite: self, env, stage }
    }
}

impl<'a> Run<'a> {
    #[verifier::type_invariant]
    spec fn is_sound(self) -> bool {
        sound(self.suite@, self.env@, self.stage.point())
    }

    /// What is to be done next.
    pub fn request(&self) -> (r: Request)
        ensures
            r@ == wish(self@.suite, self@.env, self@.point),
    {
        proof {
            use_type_invariant(self);
        }
        let layout = self.suite.layout(self.env);
        match &self.stage {
            Stage::Locking => Request::Lock { root: layout.root },
            Stage::Preparing => Request::CreateDir { path: layout.target },
            Stage::Reading(i) => Request::Read { path: self.suite.cases[*i].absolute.clone() },
            Stage::Writing(i, source) => {
                let bin = self.suite.cases[*i].bin();
                Request::Write { path: layout.bin_path(bin.as_str()), contents: source.clone() }
            },
            Stage::Manifest => {
                let bins = self.bins();
                let contents = manifest(
                    self.suite.edition.as_str(),
                    self.suite.dependencies.as_slice(),
                    self.suite.raw_manifest_lines.as_slice(),
                    bins.as_slice(),
                );
                Request::Write { path: layout.manifest(), contents }
            },
            Stage::Building => Request::Build {
                arguments: arguments(&layout),
                directory: layout.project,
                removed: withheld(&self.env.variables),
                set: overriding(),
            },
            Stage::Comparing(build) => Request::SameFile {
                ours: layout.manifest(),
                others: build.suspects(),
            },
            Stage::Blessing(_, done, actual) => {
                assert(results(done@).len() == done@.len());
                Request::WriteGolden {
                    path: golden_path(self.suite.cases[done.len()].absolute.as_str()),
                    contents: actual.clone(),
                }
            },
            Stage::Opening(_, done, _) => {
                assert(results(done@).len() == done@.len());
                Request::ReadGolden {
                    path: golden_path(self.suite.cases[done.len()].absolute.as_str()),
                }
            },
            Stage::Finished(_, _) => Request::Nothing,
        }
    }

    /// The bin target of each fixture.
    fn bins(&self) -> (r: Vec<String>)
        ensures
            strings(r@) == bins_of(self@.suite.cases),
    {
        let mut out: Vec<String> = Vec::new();
        let mut i: usize = 0;
        while i < self.suite.cases.len()
            invariant
                i <= self.suite.cases@.len(),
                strings(out@) =~= bins_of(fixtures(self.suite.cases@)).take(i as int),
            decreases self.suite.cases@.len() - i,
        {
            let ghost done = strings(out@);
            let bin = self.suite.cases[i].bin();
            out.push(bin);
            assert(strings(out@) =~= done.push(bin@));
            i += 1;
        }
        assert(strings(out@) =~= bins_of(fixtures(self.suite.cases@)));
        out
    }

    /// The run after it has been told how its request went.
    pub fn advance(self, reply: Reply) -> (r: Self)
        ensures
            r@ == (Situation {
                point: step(self@.suite, self@.env, self@.point, reply@),
                ..self@
            }),
    {
        proof {
            use_type_invariant(&self);
            law_a_run_stays_sound(self.suite@, self.env@, self.stage.point(), reply@);
        }
        let suite = self.suite;
        let env = self.env;
        let stage = next_stage(suite, env, self.stage, reply);
        Run { suite, env, stage }
    }

    /// What the run produced, once it is finished.
    pub fn outcome(self) -> (r: Option<Outcome>)
        ensures
            match r {
                Some(outcome) => self@.point == Point::Finished(outcome@),
                None => !(self@.point is Finished),
            },
    {
        match self.stage {
            Stage::Finished(setup, cases) => Some(Outcome::new(setup, cases)),
            _ => None,
        }
    }
}

fn next_stage(suite: &TestCases, env: &Environment, stage: Stage, reply: Reply) -> (r: Stage)
    requires
        sound(suite@, env@, stage.point()),
    ensures
        r.point() == step(suite@, env@, stage.point(), reply@),
{
    match (stage, reply) {
        (Stage::Locking, Reply::Done(Ok(_))) => Stage::Preparing,
        (Stage::Locking, Reply::Done(Err(error))) => {
            let layout = suite.layout(env);
            let context = two("could not lock the scratch project at ", layout.root.as_str());
            stop_on(suite, context, error)
        },
        (Stage::Preparing, Reply::Done(Ok(_))) => stage_from(suite, 0),
        (Stage::Preparing, Reply::Done(Err(error))) => {
            let layout = suite.layout(env);
            let context = two(
                "could not create the scratch target directory at ",
                layout.target.as_str(),
            );
            stop_on(suite, context, error)
        },
        (Stage::Reading(i), Reply::Text(Ok(source))) => Stage::Writing(i, source),
        (Stage::Reading(i), Reply::Text(Err(error))) => {
            let context = two("could not read the fixture ", suite.cases[i].relative.as_str());
            stop_on(suite, context, error)
        },
        (Stage::Writing(i, _), Reply::Done(Ok(_))) => {
            assert(suite.cases.len() == suite.cases@.len());
            stage_from(suite, i + 1)
        },
        (Stage::Writing(i, _), Reply::Done(Err(error))) => {
            let layout = suite.layout(env);
            let bin = suite.cases[i].bin();
            let path = layout.bin_path(bin.as_str());
            stop_on(suite, two("could not write ", path.as_str()), error)
        },
        (Stage::Manifest, Reply::Done(Ok(_))) => Stage::Building,
        (Stage::Manifest, Reply::Done(Err(error))) => {
            let layout = suite.layout(env);
            let path = layout.manifest();
            stop_on(suite, two("could not write ", path.as_str()), error)
        },
        (Stage::Building, Reply::Built(Ok((stdout, stderr)))) => take_build(
            suite,
            env,
            stdout,
            stderr,
        ),
        (Stage::Building, Reply::Built(Err(error))) => stop_on(
            suite,
            "could not run cargo for the scratch project".to_owned(),
            error,
        ),
        (Stage::Comparing(build), Reply::Same(answers)) => sort_out(suite, env, build, &answers),
        (Stage::Blessing(build, done, _), Reply::Done(written)) => {
            let mut done = done;
            let i: usize = done.len();
            assert(results(done@).len() == i);
            assert(suite@.cases[i as int] == suite.cases@[i as int]@);
            let result = suite.settle_bless(&suite.cases[i], written);
            record(&suite.cases[i], &mut done, result);
            check_from(suite, env, build, done)
        },
        (Stage::Opening(build, done, actual), Reply::Golden(golden)) => {
            let mut done = done;
            let i: usize = done.len();
            assert(results(done@).len() == i);
            assert(suite@.cases[i as int] == suite.cases@[i as int]@);
            let result = suite.compare_golden(&suite.cases[i], golden, actual);
            record(&suite.cases[i], &mut done, result);
            check_from(suite, env, build, done)
        },
        (stage, _) => stage,
    }
}

// ---------------------------------------------------------------------------
// How a run goes on.
// ---------------------------------------------------------------------------

/// Whether a run stopped short: no fixture has a result, and behind the problems met while
/// registering stands one more.
pub open spec fn stopped_short(suite: Suite, point: Point) -> bool {
    point matches Point::Finished(findings) && {
        &&& findings.cases.len() == 0
        &&& findings.setup.len() == suite.setup.len() + 1
        &&& findings.setup.drop_last() == suite.setup
    }
}

/// Whether a run stopped short because of something that could not be done, and says what
/// was said of that.
pub open spec fn stopped_by(suite: Suite, point: Point, error: Seq<char>) -> bool {
    stopped_short(suite, point) && (point matches Point::Finished(findings)
        && findings.setup.last() is Io && findings.setup.last()->Io_message == error)
}

/// A suite runs if it has a fixture, whatever went wrong while registering others, and a
/// suite without one never succeeds: it reports what went wrong, or that nothing was
/// registered.
pub proof fn law_a_suite_runs_if_it_has_a_fixture(suite: Suite)
    ensures
        suite.cases.len() > 0 ==> start(suite) == Point::Locking,
        suite.cases.len() == 0 ==> start(suite) is Finished && start(suite)->Finished_0.cases.len()
            == 0,
        suite.cases.len() == 0 && suite.setup.len() > 0 ==> start(suite)->Finished_0.setup
            == suite.setup,
        suite.cases.len() == 0 && suite.setup.len() == 0 ==> start(suite)->Finished_0.setup
            == seq![Problem::NothingRegistered],
{
}

/// A run locks the scratch project, makes its target directory, stages every fixture one
/// after the other, writes the manifest and builds, each once the one before is done; and
/// whatever of that cannot be done stops it, with what was said of it.
pub proof fn law_a_run_takes_its_steps_in_turn(
    suite: Suite,
    env: Surroundings,
    i: int,
    source: Seq<char>,
    error: Seq<char>,
)
    requires
        0 <= i < suite.cases.len(),
    ensures
        step(suite, env, Point::Locking, Answer::Done(Ok(()))) == Point::Preparing,
        step(suite, env, Point::Preparing, Answer::Done(Ok(()))) == Point::Reading(0),
        step(suite, env, Point::Reading(i), Answer::Text(Ok(source))) == Point::Writing(i, source),
        i + 1 < suite.cases.len() ==> step(
            suite,
            env,
            Point::Writing(i, source),
            Answer::Done(Ok(())),
        ) == Point::Reading(i + 1),
        i + 1 == suite.cases.len() ==> step(
            suite,
            env,
            Point::Writing(i, source),
            Answer::Done(Ok(())),
        ) == Point::Manifest,
        step(suite, env, Point::Manifest, Answer::Done(Ok(()))) == Point::Building,
        stopped_by(suite, step(suite, env, Point::Locking, Answer::Done(Err(error))), error),
        stopped_by(suite, step(suite, env, Point::Preparing, Answer::Done(Err(error))), error),
        stopped_by(suite, step(suite, env, Point::Reading(i), Answer::Text(Err(error))), error),
        stopped_by(
            suite,
            step(suite, env, Point::Writing(i, source), Answer::Done(Err(error))),
            error,
        ),
        stopped_by(suite, step(suite, env, Point::Manifest, Answer::Done(Err(error))), error),
        stopped_by(suite, step(suite, env, Point::Building, Answer::Built(Err(error))), error),
{
    assert forall|problem: Problem| (#[trigger] suite.setup.push(problem)).drop_last()
        == suite.setup by {
        assert(suite.setup.push(problem).drop_last() =~= suite.setup);
    }
}

/// What a run wants done is done in its own places: the lock is on the scratch project's
/// root, what it makes is the project's target directory, what it reads are the fixtures
/// and their goldens, what it writes are the staged sources, the manifest, and the goldens.
pub proof fn law_a_run_works_in_its_own_places(
    suite: Suite,
    env: Surroundings,
    evidence: Evidence,
    done: Seq<CaseResult>,
    actual: Seq<char>,
)
    requires
        done.len() < suite.cases.len(),
    ensures
        ({
            let places = places_of(suite, env);
            let fixture = suite.cases[done.len() as int];
            let manifest = path_join(places.project, "Cargo.toml"@);
            &&& wish(suite, env, Point::Locking) == Wish::Lock(places.root)
            &&& wish(suite, env, Point::Preparing) == Wish::CreateDir(places.target)
            &&& wish(suite, env, Point::Manifest) is Write
            &&& wish(suite, env, Point::Manifest)->Write_0 == manifest
            &&& wish(suite, env, Point::Building) is Build
            &&& wish(suite, env, Point::Building)->Build_0 == invocation(places.target, manifest)
            &&& wish(suite, env, Point::Building)->Build_1 == places.project
            &&& wish(suite, env, Point::Comparing(evidence)) == Wish::SameFile(
                manifest,
                evidence.other_manifests,
            )
            &&& wish(suite, env, Point::Blessing(evidence, done, actual)) == Wish::WriteGolden(
                golden_of(fixture.absolute),
                actual,
            )
            &&& wish(suite, env, Point::Opening(evidence, done, actual)) == Wish::ReadGolden(
                golden_of(fixture.absolute),
            )
        }),
{
}

/// The manifest of a run has the edition, the dependencies and the further lines that the
/// suite was given, and a bin for every fixture, in order.
pub proof fn law_the_manifest_has_a_bin_for_every_fixture(suite: Suite, env: Surroundings)
    ensures
        wish(suite, env, Point::Manifest) matches Wish::Write(_, text) && text == manifest_text(
            suite.edition,
            suite.dependencies,
            suite.raw_manifest_lines,
            suite.cases.map_values(|f: Fixture| bin_of(f.relative)),
        ),
{
    assert(bins_of(suite.cases) =~= suite.cases.map_values(|f: Fixture| bin_of(f.relative)));
}

/// Whether results are those of the suite's fixtures from one on, each settled by itself.
pub open spec fn are_verdicts(
    suite: Suite,
    env: Surroundings,
    evidence: Evidence,
    from: int,
    results: Seq<CaseResult>,
) -> bool {
    &&& results.len() <= suite.cases.len()
    &&& forall|i: int|
        from <= i < results.len() ==> {
            &&& (#[trigger] results[i]).path == suite.cases[i].relative
            &&& results[i].kind == suite.cases[i].kind
            &&& examined(suite, env, evidence, suite.cases[i]) == Exam::Settled(
                results[i].problem,
            )
        }
}

/// Every fixture is judged, in order, by its own evidence: what a run goes on to from the
/// results it has is the first fixture whose golden has to be looked at, or the end, where
/// every fixture has a result; the results it had stay, and each further one is what its
/// fixture came to.
pub proof fn law_every_fixture_is_judged_in_turn(
    suite: Suite,
    env: Surroundings,
    evidence: Evidence,
    done: Seq<CaseResult>,
)
    requires
        done.len() <= suite.cases.len(),
    ensures
        ({
            let from = done.len() as int;
            match checking(suite, env, evidence, done) {
                Point::Finished(findings) => {
                    &&& findings.setup == suite.setup
                    &&& findings.cases.len() == suite.cases.len()
                    &&& findings.cases.take(from) == done
                    &&& are_verdicts(suite, env, evidence, from, findings.cases)
                },
                Point::Blessing(held, more, actual) => {
                    &&& held == evidence
                    &&& from <= more.len() < suite.cases.len()
                    &&& more.take(from) == done
                    &&& are_verdicts(suite, env, evidence, from, more)
                    &&& examined(suite, env, evidence, suite.cases[more.len() as int])
                        == Exam::Bless(actual)
                },
                Point::Opening(held, more, actual) => {
                    &&& held == evidence
                    &&& from <= more.len() < suite.cases.len()
                    &&& more.take(from) == done
                    &&& are_verdicts(suite, env, evidence, from, more)
                    &&& examined(suite, env, evidence, suite.cases[more.len() as int])
                        == Exam::Compare(actual)
                },
                _ => false,
            }
        }),
    decreases suite.cases.len() - done.len(),
{
    let from = done.len() as int;
    assert(done.take(from) =~= done);
    if done.len() < suite.cases.len() {
        let fixture = suite.cases[from];
        if let Exam::Settled(problem) = examined(suite, env, evidence, fixture) {
            let more = done.push(result_of(fixture, problem));
            law_every_fixture_is_judged_in_turn(suite, env, evidence, more);
            let all = match checking(suite, env, evidence, done) {
                Point::Finished(findings) => findings.cases,
                Point::Blessing(_, list, _) => list,
                Point::Opening(_, list, _) => list,
                _ => done,
            };
            assert(all.take(from + 1) == more);
            assert(all.take(from) =~= all.take(from + 1).take(from));
            assert(more.take(from) =~= done);
            assert(all[from] == all.take(from + 1)[from]);
        }
    }
}

/// A golden settles the fixture it is for, and that fixture alone: reading one that says
/// the same as the mode compares it, or writing one, leaves no problem; anything else
/// leaves one; and the run goes on with the next fixture.
pub proof fn law_a_golden_settles_its_own_fixture(
    suite: Suite,
    env: Surroundings,
    evidence: Evidence,
    done: Seq<CaseResult>,
    actual: Seq<char>,
    golden: Result<Option<Seq<char>>, Seq<char>>,
    written: Result<(), Seq<char>>,
)
    requires
        done.len() < suite.cases.len(),
    ensures
        ({
            let fixture = suite.cases[done.len() as int];
            let read = CaseResult {
                path: fixture.relative,
                kind: fixture.kind,
                problem: compared(golden, actual, suite.mode, fixture.relative),
            };
            let wrote = CaseResult {
                path: fixture.relative,
                kind: fixture.kind,
                problem: blessed(written, fixture.relative),
            };
            &&& step(
                suite,
                env,
                Point::Opening(evidence, done, actual),
                Answer::Golden(golden),
            ) == checking(suite, env, evidence, done.push(read))
            &&& step(
                suite,
                env,
                Point::Blessing(evidence, done, actual),
                Answer::Done(written),
            ) == checking(suite, env, evidence, done.push(wrote))
            &&& read.problem is None <==> (golden matches Ok(Some(text)) && filtered(
                text,
                suite.mode,
            ) == actual)
            &&& wrote.problem is None <==> written is Ok
        }),
{
}

/// What a build comes to: a stream that cannot be read stops the run, and so does a build
/// that never finished, with what cargo said, and one in which no fixture has anything to
/// show and another package is to blame; otherwise every fixture is judged by what the
/// whole stream said.
pub proof fn law_a_build_is_judged_by_all_it_said(
    suite: Suite,
    env: Surroundings,
    stdout: Seq<char>,
    stderr: Seq<char>,
)
    ensures
        ({
            let nothing = Evidence {
                messages: Map::empty(),
                compiled: Set::empty(),
                foreign: seq![],
                other_manifests: seq![],
                stderr,
                started: false,
            };
            let manifest = path_join(places_of(suite, env).project, "Cargo.toml"@);
            let (evidence, wrong) = taken_in(nothing, lines(stdout), manifest);
            let next = step(suite, env, Point::Building, Answer::Built(Ok((stdout, stderr))));
            if wrong is Some {
                stopped_by(suite, next, wrong->0)
            } else if !evidence.started {
                stopped_short(suite, next) && next->Finished_0.setup.last() == (Problem::Cargo {
                    message: trim_end(stderr),
                })
            } else if attributed(evidence) {
                next == checking(suite, env, evidence, seq![])
            } else if evidence.other_manifests.len() > 0 {
                next == Point::Comparing(evidence)
            } else {
                match blamed(evidence) {
                    Some(message) => stopped_short(suite, next) && next->Finished_0.setup.last()
                        == (Problem::Cargo { message }),
                    None => next == checking(suite, env, evidence, seq![]),
                }
            }
        }),
{
    let (evidence, wrong) = taken_in(
        silence(stderr),
        lines(stdout),
        manifest_in(places_of(suite, env)),
    );
    assert forall|problem: Problem| (#[trigger] suite.setup.push(problem)).drop_last()
        == suite.setup by {
        assert(suite.setup.push(problem).drop_last() =~= suite.setup);
    }
    if !attributed(evidence) && evidence.other_manifests.len() == 0 {
        assert(first_yes(evidence.other_manifests, seq![]) is None);
    }
}

/// Where another manifest turns out to be another spelling of ours, the run says both and
/// blames no fixture; where none does, it goes on as if none had been reported.
pub proof fn law_another_spelling_of_the_manifest_is_reported(
    suite: Suite,
    env: Surroundings,
    evidence: Evidence,
    answers: Seq<bool>,
)
    ensures
        ({
            let next = step(suite, env, Point::Comparing(evidence), Answer::Same(answers));
            match mismatched(evidence, answers) {
                Some(reported) => stopped_short(suite, next) && next->Finished_0.setup.last() == (
                Problem::ManifestMismatch {
                    handed: path_join(places_of(suite, env).project, "Cargo.toml"@),
                    reported,
                }),
                None => match blamed(evidence) {
                    Some(message) => stopped_short(suite, next) && next->Finished_0.setup.last()
                        == (Problem::Cargo { message }),
                    None => next == checking(suite, env, evidence, seq![]),
                },
            }
        }),
{
    assert forall|problem: Problem| (#[trigger] suite.setup.push(problem)).drop_last()
        == suite.setup by {
        assert(suite.setup.push(problem).drop_last() =~= suite.setup);
    }
}

/// What went wrong while registering is reported by every run, however it ends.
pub proof fn law_problems_of_registering_are_always_reported(
    suite: Suite,
    env: Surroundings,
    point: Point,
    answer: Answer,
)
    requires
        sound(suite, env, point),
        !(point is Finished),
        step(suite, env, point, answer) is Finished,
    ensures
        suite.setup.is_prefix_of(step(suite, env, point, answer)->Finished_0.setup),
{
    match (point, answer) {
        (Point::Building, Answer::Built(Ok((stdout, stderr)))) => {
            let (evidence, wrong) = taken_in(
                silence(stderr),
                lines(stdout),
                manifest_in(places_of(suite, env)),
            );
            law_every_fixture_is_judged_in_turn(suite, env, evidence, seq![]);
        },
        (Point::Comparing(evidence), Answer::Same(answers)) => {
            law_every_fixture_is_judged_in_turn(suite, env, evidence, seq![]);
        },
        (Point::Blessing(evidence, done, _), Answer::Done(written)) => {
            let fixture = suite.cases[done.len() as int];
            let more = done.push(result_of(fixture, blessed(written, fixture.relative)));
            law_every_fixture_is_judged_in_turn(suite, env, evidence, more);
        },
        (Point::Opening(evidence, done, actual), Answer::Golden(golden)) => {
            let fixture = suite.cases[done.len() as int];
            let more = done.push(
                result_of(fixture, compared(golden, actual, suite.mode, fixture.relative)),
            );
            law_every_fixture_is_judged_in_turn(suite, env, evidence, more);
        },
        _ => {},
    }
}

} // verus!

//! The public API: register fixtures, and say what becomes of each.
use crate::compare::{filter, filtered, law_exact_golden_passes_in_either_mode, Mode};
use crate::compile::{messages_for, Build, Evidence};
use crate::environment::{copied, optional, Environment, Surroundings};
use crate::normalize::{
    cargo_home, free_of, free_of_scratch, free_of_toolchains, home_of,
    law_the_longest_dependency_comes_first, law_the_registry_goes_by_its_placeholder,
    longest_first, normalized, paths_rewritten, placeholders, Normalizer, Rules,
};
use crate::outcome::{problem_in, problems, Failure, Kind, Problem};
use crate::path::{
    components, components_of, extension, file_name, file_name_of, has_extension,
    is_component_prefix, is_name, law_another_extension_stays_beside, law_components_of_render,
    lemma_components_well_formed, lexical_join, lexical_path, parts, path_join, render, rendered,
    replace_extension, stem_len, well_formed, with_extension, Part,
};
use crate::scratch::{
    bin_name, bin_of, bin_path_in, bin_source, declared, places_under, scratch_root, Dependency,
    Layout, Places,
};
use crate::text::{
    chars_of, comes_before, concat, has_text, is_same_but_for_case, lemma_precedes_total,
    lemma_precedes_transitive, lower, occurs_at, precedes, push_text, same_but_for_case, string_of,
    strings, trim, trimmed,
};
use vstd::prelude::*;

verus! {

/// The environment variable that turns a run into a blessing run.
pub const OVERWRITE_VAR: &'static str = "NOCOMPILE";

/// The edition the scratch project declares unless the caller says otherwise.
///
/// Dependencies are declared rather than inferred, so there is no host manifest to
/// read it out of. Guessing wrong changes what the goldens contain rather than
/// erroring, so [`TestCases::edition`] is worth setting explicitly on an older
/// crate.
pub const DEFAULT_EDITION: &'static str = "2024";

/// One registered fixture, as a value to reason about.
pub struct Fixture {
    /// The path relative to the host manifest directory, with `/` separators. This
    /// is what appears in goldens.
    pub relative: Seq<char>,
    /// Where to actually read it from.
    pub absolute: Seq<char>,
    pub kind: Kind,
}

/// One registered fixture.
#[derive(Debug)]
pub struct Case {
    pub relative: String,
    pub absolute: String,
    pub kind: Kind,
}

impl View for Case {
    type V = Fixture;

    open spec fn view(&self) -> Fixture {
        Fixture { relative: self.relative@, absolute: self.absolute@, kind: self.kind }
    }
}

impl Case {
    /// The scratch project's bin target for this fixture. Derived from its relative
    /// path alone, so it cannot depend on what else was registered.
    pub fn bin(&self) -> (r: String)
        ensures
            r@ == bin_of(self@.relative),
    {
        bin_name(self.relative.as_str())
    }
}

/// The fixtures in a list.
pub open spec fn fixtures(list: Seq<Case>) -> Seq<Fixture> {
    list.map_values(|c: Case| c@)
}

/// A set of fixtures to run, as a value to reason about.
pub struct Suite {
    pub manifest_dir: Seq<char>,
    pub host_pkg_name: Seq<char>,
    pub edition: Seq<char>,
    pub mode: Mode,
    pub overwrite: Option<bool>,
    pub dependencies: Seq<(Seq<char>, Seq<char>)>,
    pub raw_manifest_lines: Seq<Seq<char>>,
    pub cases: Seq<Fixture>,
    pub setup: Seq<Problem>,
}

/// A set of compile-fail and pass fixtures to run.
#[derive(Debug)]
pub struct TestCases {
    pub manifest_dir: String,
    pub host_pkg_name: String,
    pub edition: String,
    pub mode: Mode,
    pub overwrite: Option<bool>,
    pub dependencies: Vec<Dependency>,
    pub raw_manifest_lines: Vec<String>,
    pub cases: Vec<Case>,
    /// Problems found while registering fixtures, reported by every run.
    pub setup: Vec<Failure>,
}

impl View for TestCases {
    type V = Suite;

    open spec fn view(&self) -> Suite {
        Suite {
            manifest_dir: self.manifest_dir@,
            host_pkg_name: self.host_pkg_name@,
            edition: self.edition@,
            mode: self.mode,
            overwrite: self.overwrite,
            dependencies: declared(self.dependencies@),
            raw_manifest_lines: strings(self.raw_manifest_lines@),
            cases: fixtures(self.cases@),
            setup: problems(self.setup@),
        }
    }
}

// ---------------------------------------------------------------------------
// Paths.
// ---------------------------------------------------------------------------

/// The golden beside a fixture: the same path with a `.stderr` extension.
pub open spec fn golden_of(fixture: Seq<char>) -> Seq<char> {
    with_extension(fixture, "stderr"@)
}

/// The golden beside a fixture: the same path with a `.stderr` extension.
pub fn golden_path(fixture: &str) -> (r: String)
    ensures
        r@ == golden_of(fixture@),
{
    replace_extension(fixture, "stderr")
}

/// `path` as seen from `base`: the components after those of `base`, or all of them
/// where it is not under `base`.
pub open spec fn relative_path(base: Seq<char>, path: Seq<char>) -> Seq<char> {
    let short = components(base);
    let long = components(path);
    render(
        if short.is_prefix_of(long) {
            long.skip(short.len() as int)
        } else {
            long
        },
    )
}

/// `path` as seen from `base`, with `/` separators. Falls back to the full path when
/// it is not under `base`, which keeps the message useful rather than truncating it
/// to a bare file name.
pub fn relative_to(base: &str, path: &str) -> (r: String)
    ensures
        r@ == relative_path(base@, path@),
{
    let base = chars_of(base);
    let path = chars_of(path);
    let short = components_of(base.as_slice());
    let mut long = components_of(path.as_slice());
    if is_component_prefix(&short, &long) {
        let ghost all = parts(long@);
        assert(parts(short@).len() <= all.len());
        let rest = long.split_off(short.len());
        assert(parts(rest@) =~= all.skip(short@.len() as int));
        let out = rendered(&rest);
        return string_of(out.as_slice());
    }
    let out = rendered(&long);
    string_of(out.as_slice())
}

/// Build a [`Failure::Io`].
pub fn io_failure(context: String, error: String) -> (r: Failure)
    ensures
        r@ == (Problem::Io { context: context@, message: error@ }),
{
    Failure::Io { context, message: error }
}

/// Two texts, one after the other.
pub fn two(first: &str, second: &str) -> (r: String)
    ensures
        r@ == first@ + second@,
{
    let mut out = chars_of(first);
    push_text(&mut out, second);
    string_of(out.as_slice())
}

// ---------------------------------------------------------------------------
// Registering.
// ---------------------------------------------------------------------------

/// What a directory holds: where one entry is, and whether a file is there.
#[derive(Debug)]
pub struct Entry {
    pub path: String,
    pub is_file: bool,
}

/// A directory's entries in the order they were read, each of which may be an error
/// of its own, or the error that kept it from being read at all.
pub type Listing = Result<Vec<Result<Entry, String>>, String>;

/// A directory entry, as a value to reason about.
pub open spec fn entry_in(entry: Result<Entry, String>) -> Result<(Seq<char>, bool), Seq<char>> {
    match entry {
        Ok(entry) => Ok((entry.path@, entry.is_file)),
        Err(error) => Err(error@),
    }
}

/// The entries of a directory, as values to reason about.
pub open spec fn entries_in(list: Seq<Result<Entry, String>>) -> Seq<
    Result<(Seq<char>, bool), Seq<char>>,
> {
    list.map_values(|e: Result<Entry, String>| entry_in(e))
}

/// The fixtures among a directory's entries, in the order they were read, or the
/// first error among them.
pub open spec fn sources(list: Seq<Result<(Seq<char>, bool), Seq<char>>>) -> Result<
    Seq<Seq<char>>,
    Seq<char>,
>
    decreases list.len(),
{
    if list.len() == 0 {
        Ok(seq![])
    } else {
        match list[0] {
            Err(error) => Err(error),
            Ok((path, is_file)) => match sources(list.drop_first()) {
                Err(error) => Err(error),
                Ok(rest) => Ok(
                    if extension(path) == Some("rs"@) && is_file {
                        seq![path] + rest
                    } else {
                        rest
                    },
                ),
            },
        }
    }
}

/// Whether the file name of `a` comes before that of `b`. A path without one comes
/// first.
pub open spec fn named_before(a: Seq<char>, b: Seq<char>) -> bool {
    match (file_name(a), file_name(b)) {
        (Some(x), Some(y)) => precedes(x, y),
        (None, Some(_)) => true,
        _ => false,
    }
}

/// `path` put into `list` behind every file that does not come after it.
pub open spec fn insert_by_name(list: Seq<Seq<char>>, path: Seq<char>) -> Seq<Seq<char>>
    decreases list.len(),
{
    if list.len() == 0 || !named_before(path, list.last()) {
        list.push(path)
    } else {
        insert_by_name(list.drop_last(), path).push(list.last())
    }
}

/// The files in the order of their names. Files of one name keep their order.
pub open spec fn by_name(list: Seq<Seq<char>>) -> Seq<Seq<char>>
    decreases list.len(),
{
    if list.len() == 0 {
        seq![]
    } else {
        insert_by_name(by_name(list.drop_last()), list.last())
    }
}

/// The fixture a path stands for.
pub open spec fn fixture_at(manifest_dir: Seq<char>, path: Seq<char>, kind: Kind) -> Fixture {
    let absolute = lexical_path(manifest_dir, path);
    Fixture { relative: relative_path(manifest_dir, absolute), absolute, kind }
}

/// The fixtures a list of files stands for.
pub open spec fn fixtures_at(manifest_dir: Seq<char>, files: Seq<Seq<char>>, kind: Kind) -> Seq<
    Fixture,
> {
    files.map_values(
        |file: Seq<char>|
            Fixture { relative: relative_path(manifest_dir, file), absolute: file, kind },
    )
}

/// A suite with one more fixture.
pub open spec fn with_file(suite: Suite, path: Seq<char>, kind: Kind) -> Suite {
    Suite { cases: suite.cases.push(fixture_at(suite.manifest_dir, path, kind)), ..suite }
}

/// A suite with one more problem.
pub open spec fn with_problem(suite: Suite, problem: Problem) -> Suite {
    Suite { setup: suite.setup.push(problem), ..suite }
}

/// A suite with the fixtures of one directory: every `.rs` file directly in it, in
/// the order of their names. A directory that cannot be read, or matches nothing, is
/// a problem: it means the suite is not running.
pub open spec fn with_dir(
    suite: Suite,
    dir: Seq<char>,
    listing: Result<Seq<Result<(Seq<char>, bool), Seq<char>>>, Seq<char>>,
    kind: Kind,
) -> Suite {
    match listing {
        Err(error) => with_problem(
            suite,
            Problem::Io {
                context: "could not read the fixture directory "@ + dir,
                message: error,
            },
        ),
        Ok(entries) => match sources(entries) {
            Err(error) => with_problem(
                suite,
                Problem::Io { context: "could not read an entry of "@ + dir, message: error },
            ),
            Ok(files) => if files.len() == 0 {
                with_problem(
                    suite,
                    Problem::NoFixtures {
                        directory: relative_path(
                            suite.manifest_dir,
                            lexical_path(suite.manifest_dir, dir),
                        ),
                    },
                )
            } else {
                Suite {
                    cases: suite.cases + fixtures_at(suite.manifest_dir, by_name(files), kind),
                    ..suite
                }
            },
        },
    }
}

/// A listing, as a value to reason about.
pub open spec fn listed(listing: Listing) -> Result<
    Seq<Result<(Seq<char>, bool), Seq<char>>>,
    Seq<char>,
> {
    match listing {
        Ok(entries) => Ok(entries_in(entries@)),
        Err(error) => Err(error@),
    }
}

fn is_named_before(a: &str, b: &str) -> (r: bool)
    ensures
        r == named_before(a@, b@),
{
    match (file_name_of(a), file_name_of(b)) {
        (Some(x), Some(y)) => {
            let x = chars_of(x.as_str());
            let y = chars_of(y.as_str());
            comes_before(x.as_slice(), y.as_slice())
        },
        (None, Some(_)) => true,
        _ => false,
    }
}

/// Put `path` into `list` behind every file that does not come after it.
fn insert_file(list: &mut Vec<String>, path: String)
    ensures
        strings(final(list)@) == insert_by_name(strings(old(list)@), path@),
{
    let ghost all = strings(list@);
    let mut at: usize = list.len();
    assert(all.take(at as int) =~= all);
    assert(insert_by_name(all, path@) =~= insert_by_name(all.take(at as int), path@) + all.skip(
        at as int,
    ));
    loop
        invariant_except_break
            at <= list@.len(),
            all == strings(list@),
            insert_by_name(all, path@) == insert_by_name(all.take(at as int), path@) + all.skip(
                at as int,
            ),
        ensures
            at <= list@.len(),
            insert_by_name(all, path@) == all.take(at as int).push(path@) + all.skip(at as int),
        decreases at,
    {
        if at == 0 {
            assert(all.take(0) =~= seq![]);
            break;
        }
        assert(all.take(at as int).last() == list@[at - 1]@);
        if !is_named_before(path.as_str(), list[at - 1].as_str()) {
            break;
        }
        assert(all.take(at as int).drop_last() =~= all.take(at - 1));
        assert(insert_by_name(all.take(at - 1), path@).push(all[at - 1]) + all.skip(at as int)
            =~= insert_by_name(all.take(at - 1), path@) + all.skip(at - 1));
        at -= 1;
    }
    list.insert(at, path);
    assert(strings(list@) =~= all.take(at as int).push(path@) + all.skip(at as int));
}

/// The files in the order of their names.
fn sorted_by_name(files: Vec<String>) -> (r: Vec<String>)
    ensures
        strings(r@) == by_name(strings(files@)),
{
    let ghost all = strings(files@);
    let mut out: Vec<String> = Vec::new();
    let mut i: usize = 0;
    assert(all.take(0) =~= seq![]);
    assert(strings(out@) =~= by_name(all.take(0)));
    while i < files.len()
        invariant
            i <= files@.len(),
            all == strings(files@),
            strings(out@) == by_name(all.take(i as int)),
        decreases files@.len() - i,
    {
        assert(all.take(i + 1).drop_last() =~= all.take(i as int));
        assert(all.take(i + 1).last() == files@[i as int]@);
        insert_file(&mut out, files[i].clone());
        i += 1;
    }
    assert(all.take(i as int) =~= all);
    out
}

/// The fixtures among a directory's entries, or the first error among them.
fn source_files(entries: Vec<Result<Entry, String>>) -> (r: Result<Vec<String>, String>)
    ensures
        match r {
            Ok(files) => sources(entries_in(entries@)) == Ok::<Seq<Seq<char>>, Seq<char>>(
                strings(files@),
            ),
            Err(error) => sources(entries_in(entries@)) == Err::<Seq<Seq<char>>, Seq<char>>(error@),
        },
{
    let ghost all = entries_in(entries@);
    let mut files: Vec<String> = Vec::new();
    let mut i: usize = 0;
    assert(all.skip(0) =~= all);
    proof {
        if let Ok(rest) = sources(all) {
            assert(strings(files@) + rest =~= rest);
        }
    }
    while i < entries.len()
        invariant
            i <= entries@.len(),
            all == entries_in(entries@),
            match sources(all.skip(i as int)) {
                Ok(rest) => sources(all) == Ok::<Seq<Seq<char>>, Seq<char>>(
                    strings(files@) + rest,
                ),
                Err(error) => sources(all) == Err::<Seq<Seq<char>>, Seq<char>>(error),
            },
        decreases entries@.len() - i,
    {
        let ghost done = strings(files@);
        assert(all.skip(i as int)[0] == entry_in(entries@[i as int]));
        assert(all.skip(i as int).drop_first() =~= all.skip(i + 1));
        match &entries[i] {
            Err(error) => {
                return Err(error.clone());
            },
            Ok(entry) => {
                if has_extension(entry.path.as_str(), "rs") && entry.is_file {
                    let path = entry.path.clone();
                    files.push(path);
                    proof {
                        assert(strings(files@) =~= done.push(path@));
                        if let Ok(rest) = sources(all.skip(i + 1)) {
                            assert(strings(files@) + rest =~= done + (seq![path@] + rest));
                        }
                    }
                }
            },
        }
        i += 1;
    }
    assert(all.skip(i as int) =~= seq![]);
    assert(strings(files@) + seq![] =~= strings(files@));
    Ok(files)
}

impl TestCases {
    /// Create a set of cases for a host crate.
    pub fn new(manifest_dir: &str, host_pkg_name: &str) -> (r: Self)
        ensures
            r@ == (Suite {
                manifest_dir: manifest_dir@,
                host_pkg_name: host_pkg_name@,
                edition: DEFAULT_EDITION@,
                mode: Mode::Exact,
                overwrite: None,
                dependencies: seq![],
                raw_manifest_lines: seq![],
                cases: seq![],
                setup: seq![],
            }),
    {
        let r = TestCases {
            manifest_dir: manifest_dir.to_owned(),
            host_pkg_name: host_pkg_name.to_owned(),
            edition: DEFAULT_EDITION.to_owned(),
            mode: Mode::default(),
            overwrite: None,
            dependencies: Vec::new(),
            raw_manifest_lines: Vec::new(),
            cases: Vec::new(),
            setup: Vec::new(),
        };
        assert(r@.dependencies =~= seq![]);
        assert(r@.raw_manifest_lines =~= seq![]);
        assert(r@.cases =~= seq![]);
        assert(r@.setup =~= seq![]);
        r
    }

    /// Make a crate available to every fixture, by path.
    ///
    /// `path` is resolved against the host crate's manifest directory. In the common
    /// case this is one line naming the crate under test.
    ///
    /// A dependency outside the host crate also gets a normalization placeholder,
    /// `my-crate` becoming `$MY_CRATE`, so a diagnostic that points into its source
    /// does not put an absolute path in a golden.
    pub fn dependency_path(&mut self, name: &str, path: &str) -> (r: &mut Self)
        ensures
            (*r)@ == (Suite {
                dependencies: old(self)@.dependencies.push(
                    (name@, lexical_path(old(self)@.manifest_dir, path@)),
                ),
                ..old(self)@
            }),
            *final(self) == *final(r),
    {
        let ghost done = declared(self.dependencies@);
        let path = lexical_join(self.manifest_dir.as_str(), path);
        let dependency = Dependency { name: name.to_owned(), path };
        self.dependencies.push(dependency);
        assert(declared(self.dependencies@) =~= done.push(dependency@));
        self
    }

    /// Append raw text to the generated manifest.
    ///
    /// The escape hatch for anything the typed methods do not cover -- a
    /// `[features]` table, a `[profile.dev]` override.
    pub fn raw_manifest_lines(&mut self, lines: &str) -> (r: &mut Self)
        ensures
            (*r)@ == (Suite {
                raw_manifest_lines: old(self)@.raw_manifest_lines.push(lines@),
                ..old(self)@
            }),
            *final(self) == *final(r),
    {
        let ghost done = strings(self.raw_manifest_lines@);
        self.raw_manifest_lines.push(lines.to_owned());
        assert(strings(self.raw_manifest_lines@) =~= done.push(lines@));
        self
    }

    /// Set the edition the fixtures are compiled under. Defaults to `2024`.
    pub fn edition(&mut self, edition: &str) -> (r: &mut Self)
        ensures
            (*r)@ == (Suite { edition: edition@, ..old(self)@ }),
            *final(self) == *final(r),
    {
        self.edition = edition.to_owned();
        self
    }

    /// Choose how diagnostics are compared against goldens. See [`Mode`].
    pub fn mode(&mut self, mode: Mode) -> (r: &mut Self)
        ensures
            (*r)@ == (Suite { mode, ..old(self)@ }),
            *final(self) == *final(r),
    {
        self.mode = mode;
        self
    }

    /// Force blessing on or off, overriding the `NOCOMPILE` environment variable.
    pub fn overwrite(&mut self, overwrite: bool) -> (r: &mut Self)
        ensures
            (*r)@ == (Suite { overwrite: Some(overwrite), ..old(self)@ }),
            *final(self) == *final(r),
    {
        self.overwrite = Some(overwrite);
        self
    }

    /// Register one fixture that must not compile.
    pub fn compile_fail(&mut self, path: &str) -> (r: &mut Self)
        ensures
            (*r)@ == with_file(old(self)@, path@, Kind::CompileFail),
            *final(self) == *final(r),
    {
        self.push_file(path, Kind::CompileFail);
        self
    }

    /// Register every `.rs` file directly in `dir` as a compile-fail fixture,
    /// ordered by file name so the report is stable. `listing` is what reading the
    /// directory gave.
    pub fn compile_fail_dir(&mut self, dir: &str, listing: Listing) -> (r: &mut Self)
        ensures
            (*r)@ == with_dir(old(self)@, dir@, listed(listing), Kind::CompileFail),
            *final(self) == *final(r),
    {
        self.push_dir(dir, listing, Kind::CompileFail);
        self
    }

    /// Register one fixture that must compile. There is no golden; the assertion is
    /// the exit status.
    pub fn pass(&mut self, path: &str) -> (r: &mut Self)
        ensures
            (*r)@ == with_file(old(self)@, path@, Kind::Pass),
            *final(self) == *final(r),
    {
        self.push_file(path, Kind::Pass);
        self
    }

    /// Register every `.rs` file directly in `dir` as a pass fixture. `listing` is
    /// what reading the directory gave.
    pub fn pass_dir(&mut self, dir: &str, listing: Listing) -> (r: &mut Self)
        ensures
            (*r)@ == with_dir(old(self)@, dir@, listed(listing), Kind::Pass),
            *final(self) == *final(r),
    {
        self.push_dir(dir, listing, Kind::Pass);
        self
    }

    fn push_file(&mut self, path: &str, kind: Kind)
        ensures
            final(self)@ == with_file(old(self)@, path@, kind),
    {
        let absolute = lexical_join(self.manifest_dir.as_str(), path);
        let relative = relative_to(self.manifest_dir.as_str(), absolute.as_str());
        self.push_case(relative, absolute, kind);
    }

    /// The one place a [`Case`] is built.
    fn push_case(&mut self, relative: String, absolute: String, kind: Kind)
        ensures
            final(self)@ == (Suite {
                cases: old(self)@.cases.push(
                    Fixture { relative: relative@, absolute: absolute@, kind },
                ),
                ..old(self)@
            }),
    {
        let ghost done = fixtures(self.cases@);
        let case = Case { relative, absolute, kind };
        self.cases.push(case);
        assert(fixtures(self.cases@) =~= done.push(case@));
    }

    fn push_problem(&mut self, failure: Failure)
        ensures
            final(self)@ == with_problem(old(self)@, failure@),
    {
        let ghost done = problems(self.setup@);
        self.setup.push(failure);
        assert(problems(self.setup@) =~= done.push(failure@));
    }

    fn push_dir(&mut self, dir: &str, listing: Listing, kind: Kind)
        ensures
            final(self)@ == with_dir(old(self)@, dir@, listed(listing), kind),
    {
        let entries = match listing {
            Ok(entries) => entries,
            Err(error) => {
                let context = two("could not read the fixture directory ", dir);
                self.push_problem(io_failure(context, error));
                return;
            },
        };
        let files = match source_files(entries) {
            Ok(files) => files,
            Err(error) => {
                let context = two("could not read an entry of ", dir);
                self.push_problem(io_failure(context, error));
                return;
            },
        };
        // A directory that matches nothing means the suite is not running, which is
        // worth saying out loud rather than reporting as a clean pass.
        assert(strings(files@).len() == files@.len());
        if files.len() == 0 {
            let absolute = lexical_join(self.manifest_dir.as_str(), dir);
            let directory = relative_to(self.manifest_dir.as_str(), absolute.as_str());
            self.push_problem(Failure::NoFixtures { directory });
            return;
        }
        // Sorted by file name so the report order does not depend on the file
        // system.
        let files = sorted_by_name(files);
        let ghost all = fixtures_at(self@.manifest_dir, strings(files@), kind);
        let mut i: usize = 0;
        assert(all.take(0) =~= seq![]);
        assert(self@.cases =~= old(self)@.cases + all.take(0));
        while i < files.len()
            invariant
                i <= files@.len(),
                all == fixtures_at(old(self)@.manifest_dir, strings(files@), kind),
                self@ == (Suite { cases: old(self)@.cases + all.take(i as int), ..old(self)@ }),
            decreases files@.len() - i,
        {
            let relative = relative_to(self.manifest_dir.as_str(), files[i].as_str());
            let file = files[i].clone();
            self.push_case(relative, file, kind);
            assert(all[i as int] == (Fixture {
                relative: relative@,
                absolute: file@,
                kind,
            }));
            assert(self@.cases =~= old(self)@.cases + all.take(i + 1));
            i += 1;
        }
        assert(all.take(i as int) =~= all);
    }
}

// ---------------------------------------------------------------------------
// Checking one fixture.
// ---------------------------------------------------------------------------

/// Whether this run writes goldens rather than comparing against them. What the
/// suite was told wins over the environment.
pub open spec fn blesses(suite: Suite, env: Surroundings) -> bool {
    match suite.overwrite {
        Some(overwrite) => overwrite,
        None => match env.overwrite {
            Some(value) => same_but_for_case(value, "overwrite"@),
            None => false,
        },
    }
}

/// Where the scratch project of a suite lives.
pub open spec fn places_of(suite: Suite, env: Surroundings) -> Places {
    places_under(scratch_root(suite.manifest_dir, suite.host_pkg_name, env))
}

/// The rewrites that make one fixture's diagnostics reproducible.
pub open spec fn rules_for(suite: Suite, env: Surroundings, fixture: Fixture) -> Rules {
    let bin = bin_of(fixture.relative);
    Rules {
        scratch_absolute: bin_path_in(places_of(suite, env), bin),
        scratch_relative: bin_source(bin),
        bin,
        scratch_root: places_of(suite, env).root,
        manifest_dir: suite.manifest_dir,
        cargo_home: home_of(env.cargo_home, env.home),
        dependencies: longest_first(suite.dependencies),
    }
}

/// What was said about one fixture, as it was rendered.
pub open spec fn said_of(evidence: Evidence, fixture: Fixture) -> Seq<char> {
    concat(messages_for(evidence, bin_of(fixture.relative)))
}

/// What was said about one fixture, as it reads on any machine.
pub open spec fn told(suite: Suite, env: Surroundings, evidence: Evidence, fixture: Fixture) -> Seq<
    char,
> {
    normalized(rules_for(suite, env, fixture), said_of(evidence, fixture), fixture.relative)
}

/// What one fixture came to, before its golden is looked at.
pub enum Exam {
    /// Settled: it held up, or did not.
    Settled(Option<Problem>),
    /// Its diagnostics are to be written as its golden.
    Bless(Seq<char>),
    /// Its diagnostics are to be compared with its golden.
    Compare(Seq<char>),
}

/// What one fixture came to. An artifact is the only evidence that it compiled:
/// a target cargo never got to has no diagnostics either. A fixture with nothing to
/// compare is never blessed, since an empty golden would make it useless.
pub open spec fn examined(
    suite: Suite,
    env: Surroundings,
    evidence: Evidence,
    fixture: Fixture,
) -> Exam {
    let compiled = evidence.compiled.contains(bin_of(fixture.relative));
    match fixture.kind {
        Kind::Pass => if compiled {
            Exam::Settled(None)
        } else {
            Exam::Settled(
                Some(Problem::DidNotCompile { stderr: told(suite, env, evidence, fixture) }),
            )
        },
        Kind::CompileFail => {
            let actual = filtered(told(suite, env, evidence, fixture), suite.mode);
            if compiled {
                Exam::Settled(Some(Problem::Compiled))
            } else if trim(actual).len() == 0 {
                Exam::Settled(
                    Some(
                        Problem::NoDiagnostics {
                            stderr: if trim(said_of(evidence, fixture)).len() == 0 {
                                evidence.stderr
                            } else {
                                said_of(evidence, fixture)
                            },
                        },
                    ),
                )
            } else if blesses(suite, env) {
                Exam::Bless(actual)
            } else {
                Exam::Compare(actual)
            }
        },
    }
}

/// What comparing with a golden comes to. `golden` is what reading it gave: its text,
/// or nothing where there is no such file, or an error. Both sides are filtered, so
/// `Brief` accepts an `Exact` golden.
pub open spec fn compared(
    golden: Result<Option<Seq<char>>, Seq<char>>,
    actual: Seq<char>,
    mode: Mode,
    relative: Seq<char>,
) -> Option<Problem> {
    match golden {
        Err(error) => Some(
            Problem::Io {
                context: "could not read the golden "@ + golden_of(relative),
                message: error,
            },
        ),
        Ok(None) => Some(Problem::MissingGolden { golden: golden_of(relative) }),
        Ok(Some(text)) => if filtered(text, mode) == actual {
            None
        } else {
            Some(
                Problem::Mismatch {
                    golden: golden_of(relative),
                    expected: filtered(text, mode),
                    actual,
                    mode,
                },
            )
        },
    }
}

/// What writing a golden comes to.
pub open spec fn blessed(written: Result<(), Seq<char>>, relative: Seq<char>) -> Option<Problem> {
    match written {
        Ok(_) => None,
        Err(error) => Some(
            Problem::Io {
                context: "could not write the golden "@ + golden_of(relative),
                message: error,
            },
        ),
    }
}

/// What one fixture came to, before its golden is looked at.
#[derive(Debug)]
pub enum Check {
    /// Settled: it held up, or did not.
    Settled(Result<(), Failure>),
    /// Its diagnostics are to be written as its golden.
    Bless(String),
    /// Its diagnostics are to be compared with its golden.
    Compare(String),
}

impl View for Check {
    type V = Exam;

    open spec fn view(&self) -> Exam {
        match self {
            Check::Settled(result) => Exam::Settled(problem_in(*result)),
            Check::Bless(text) => Exam::Bless(text@),
            Check::Compare(text) => Exam::Compare(text@),
        }
    }
}

fn is_blank(text: &str) -> (r: bool)
    ensures
        r == (trim(text@).len() == 0),
{
    let chars = chars_of(text);
    trimmed(chars.as_slice()).len() == 0
}

impl TestCases {
    /// Whether this run writes goldens rather than comparing against them.
    pub fn overwrite_requested(&self, env: &Environment) -> (r: bool)
        ensures
            r == blesses(self@, env@),
    {
        if let Some(overwrite) = self.overwrite {
            return overwrite;
        }
        match &env.overwrite {
            Some(value) => is_same_but_for_case(value.as_str(), "overwrite"),
            None => false,
        }
    }

    /// The scratch project's layout.
    pub fn layout(&self, env: &Environment) -> (r: Layout)
        ensures
            r@ == places_of(self@, env@),
    {
        Layout::new(self.manifest_dir.as_str(), self.host_pkg_name.as_str(), env)
    }

    /// The rewrites that make one fixture's diagnostics reproducible.
    pub fn normalizer(&self, env: &Environment, case: &Case) -> (r: Normalizer)
        ensures
            r@ == rules_for(self@, env@, case@),
    {
        let layout = self.layout(env);
        let bin = case.bin();
        let source = layout.bin_path(bin.as_str());
        let home = cargo_home(copied(&env.cargo_home), copied(&env.home));
        Normalizer::new(
            layout.root.as_str(),
            source.as_str(),
            bin.as_str(),
            self.manifest_dir.as_str(),
            self.dependencies.as_slice(),
            home,
        )
    }

    /// What one fixture came to, before its golden is looked at.
    pub fn check_case(&self, env: &Environment, case: &Case, build: &Build) -> (r: Check)
        ensures
            r@ == examined(self@, env@, build@, case@),
    {
        match case.kind {
            Kind::CompileFail => self.check_compile_fail(env, case, build),
            Kind::Pass => Check::Settled(self.check_pass(env, case, build)),
        }
    }

    /// What a fixture that must not compile came to, before its golden is looked at.
    pub fn check_compile_fail(&self, env: &Environment, case: &Case, build: &Build) -> (r: Check)
        requires
            case.kind == Kind::CompileFail,
        ensures
            r@ == examined(self@, env@, build@, case@),
    {
        let bin = case.bin();
        // The most important failure the harness reports, and the reason it gets its
        // own message rather than a diff against an empty golden.
        if build.compiled(bin.as_str()) {
            return Check::Settled(Err(Failure::Compiled));
        }
        let diagnostics = build.diagnostics(bin.as_str());
        let normalizer = self.normalizer(env, case);
        let text = normalizer.normalize(diagnostics.as_str(), case.relative.as_str());
        let actual = filter(text.as_str(), self.mode);
        if is_blank(actual.as_str()) {
            // When cargo suppressed everything rustc said about this fixture there
            // are no diagnostics left to show, and cargo's own stderr is the only
            // remaining evidence -- it still names the target it could not compile.
            let stderr = if is_blank(diagnostics.as_str()) {
                build.stderr.clone()
            } else {
                diagnostics
            };
            return Check::Settled(Err(Failure::NoDiagnostics { stderr }));
        }
        if self.overwrite_requested(env) {
            Check::Bless(actual)
        } else {
            Check::Compare(actual)
        }
    }

    /// What a fixture that must compile came to.
    pub fn check_pass(&self, env: &Environment, case: &Case, build: &Build) -> (r: Result<
        (),
        Failure,
    >)
        requires
            case.kind == Kind::Pass,
        ensures
            examined(self@, env@, build@, case@) == Exam::Settled(problem_in(r)),
    {
        let bin = case.bin();
        if build.compiled(bin.as_str()) {
            return Ok(());
        }
        // Normalized even though there is no golden here, because the message has to
        // name the fixture the reader wrote rather than the scratch file.
        let diagnostics = build.diagnostics(bin.as_str());
        let normalizer = self.normalizer(env, case);
        let stderr = normalizer.normalize(diagnostics.as_str(), case.relative.as_str());
        Err(Failure::DidNotCompile { stderr })
    }

    /// What comparing a fixture's diagnostics with its golden comes to.
    pub fn compare_golden(
        &self,
        case: &Case,
        golden: Result<Option<String>, String>,
        actual: String,
    ) -> (r: Result<(), Failure>)
        ensures
            problem_in(r) == compared(
                golden_in(golden),
                actual@,
                self@.mode,
                case@.relative,
            ),
    {
        let path = golden_path(case.relative.as_str());
        match golden {
            Err(error) => Err(
                io_failure(two("could not read the golden ", path.as_str()), error),
            ),
            // A missing golden is a failure, never an implicit bless: otherwise a new
            // fixture passes on the run that creates it and nobody reads what it
            // captured.
            Ok(None) => Err(Failure::MissingGolden { golden: path }),
            Ok(Some(text)) => {
                let expected = filter(text.as_str(), self.mode);
                if expected == actual {
                    Ok(())
                } else {
                    Err(Failure::Mismatch { golden: path, expected, actual, mode: self.mode })
                }
            },
        }
    }

    /// What writing a fixture's golden comes to.
    pub fn settle_bless(&self, case: &Case, written: Result<(), String>) -> (r: Result<(), Failure>)
        ensures
            problem_in(r) == blessed(written_in(written), case@.relative),
    {
        match written {
            Ok(_) => Ok(()),
            Err(error) => {
                let path = golden_path(case.relative.as_str());
                Err(io_failure(two("could not write the golden ", path.as_str()), error))
            },
        }
    }
}

/// What reading a golden gave, as a value to reason about.
pub open spec fn golden_in(golden: Result<Option<String>, String>) -> Result<
    Option<Seq<char>>,
    Seq<char>,
> {
    match golden {
        Ok(text) => Ok(optional(text)),
        Err(error) => Err(error@),
    }
}

/// What writing gave, as a value to reason about.
pub open spec fn written_in(written: Result<(), String>) -> Result<(), Seq<char>> {
    match written {
        Ok(_) => Ok(()),
        Err(error) => Err(error@),
    }
}

// ---------------------------------------------------------------------------
// Laws.
// ---------------------------------------------------------------------------

/// A relative path leads from its base back to where it came from, and a path that is
/// not under the base stays as it is.
pub proof fn law_a_relative_path_leads_back(base: Seq<char>, path: Seq<char>)
    ensures
        ({
            let short = components(base);
            let long = components(path);
            let rest = components(relative_path(base, path));
            if short.is_prefix_of(long) {
                short + rest == long
            } else {
                rest == long
            }
        }),
{
    let short = components(base);
    let long = components(path);
    lemma_components_well_formed(path);
    let rest = if short.is_prefix_of(long) {
        long.skip(short.len() as int)
    } else {
        long
    };
    assert(well_formed(rest)) by {
        assert forall|i: int| 0 <= i < rest.len() implies match #[trigger] rest[i] {
            Part::Root => i == 0,
            Part::Here => i == 0,
            Part::Up => true,
            Part::Name(name) => is_name(name),
        } by {
            let at = if short.is_prefix_of(long) {
                i + short.len()
            } else {
                i
            };
            assert(rest[i] == long[at]);
        }
    }
    law_components_of_render(rest);
    if short.is_prefix_of(long) {
        assert(short + rest =~= long);
    }
}

/// A golden sits beside its fixture: it differs from it in the extension alone.
pub proof fn law_a_golden_sits_beside_its_fixture(fixture: Seq<char>)
    requires
        file_name(fixture) is Some,
    ensures
        ({
            let name = file_name(fixture)->0;
            let golden = name.take(stem_len(name)) + ".stderr"@;
            &&& components(fixture).len() > 0
            &&& components(fixture).last() == Part::Name(name)
            &&& components(golden_of(fixture)) == components(fixture).drop_last().push(
                Part::Name(golden),
            )
        }),
{
    reveal_strlit("stderr");
    reveal_strlit(".stderr");
    let name = file_name(fixture)->0;
    let ext = "stderr"@;
    law_another_extension_stays_beside(fixture, ext);
    assert(name.take(stem_len(name)) + seq!['.'] + ext =~= name.take(stem_len(name))
        + ".stderr"@);
}

/// Whether files stand in the order of their names.
pub open spec fn in_name_order(list: Seq<Seq<char>>) -> bool {
    forall|i: int, j: int|
        0 <= i < j < list.len() ==> !#[trigger] named_before(list[j], list[i])
}

/// Of three files, if the third does not come before the second, nor the second before
/// the first, the third does not come before the first.
proof fn lemma_not_before_transitive(a: Seq<char>, b: Seq<char>, c: Seq<char>)
    requires
        !named_before(b, a),
        !named_before(c, b),
    ensures
        !named_before(c, a),
{
    if named_before(c, a) {
        match (file_name(a), file_name(b), file_name(c)) {
            (Some(x), Some(y), Some(z)) => {
                lemma_precedes_total(x, y);
                lemma_precedes_total(y, z);
                if x != y && y != z {
                    lemma_precedes_transitive(x, y, z);
                }
                lemma_precedes_total(x, z);
            },
            _ => {},
        }
    }
}

/// At most one of two files comes before the other.
proof fn lemma_before_one_way(a: Seq<char>, b: Seq<char>)
    requires
        named_before(a, b),
    ensures
        !named_before(b, a),
{
    if let (Some(x), Some(y)) = (file_name(a), file_name(b)) {
        lemma_precedes_total(x, y);
    }
}

proof fn lemma_insert_by_name(list: Seq<Seq<char>>, path: Seq<char>)
    requires
        in_name_order(list),
    ensures
        in_name_order(insert_by_name(list, path)),
        insert_by_name(list, path).to_multiset() == list.to_multiset().insert(path),
        forall|x: Seq<char>| #[trigger]
            insert_by_name(list, path).contains(x) ==> list.contains(x) || x == path,
    decreases list.len(),
{
    broadcast use vstd::seq_lib::group_to_multiset_ensures;

    let out = insert_by_name(list, path);
    if list.len() == 0 || !named_before(path, list.last()) {
        assert forall|i: int, j: int| 0 <= i < j < out.len() implies !#[trigger] named_before(
            out[j],
            out[i],
        ) by {
            if j == list.len() {
                if i < list.len() - 1 {
                    assert(!named_before(list[list.len() - 1], list[i]));
                    lemma_not_before_transitive(list[i], list.last(), path);
                }
            } else {
                assert(!named_before(list[j], list[i]));
            }
        }
    } else {
        let front = list.drop_last();
        let last = list.last();
        assert forall|i: int, j: int| 0 <= i < j < front.len() implies !#[trigger] named_before(
            front[j],
            front[i],
        ) by {
            assert(!named_before(list[j], list[i]));
        }
        lemma_insert_by_name(front, path);
        let inner = insert_by_name(front, path);
        assert(list =~= front.push(last));
        assert(out.to_multiset() =~= list.to_multiset().insert(path));
        assert forall|i: int, j: int| 0 <= i < j < out.len() implies !#[trigger] named_before(
            out[j],
            out[i],
        ) by {
            if j == inner.len() {
                assert(inner.contains(inner[i]));
                if inner[i] == path {
                    lemma_before_one_way(path, last);
                } else {
                    let k = choose|k: int| 0 <= k < front.len() && front[k] == inner[i];
                    assert(!named_before(list[list.len() - 1], list[k]));
                }
            } else {
                assert(!named_before(inner[j], inner[i]));
            }
        }
        assert forall|x: Seq<char>| #[trigger] out.contains(x) implies list.contains(x) || x
            == path by {
            let k = choose|k: int| 0 <= k < out.len() && out[k] == x;
            if k < inner.len() {
                assert(inner.contains(inner[k]));
                if x != path {
                    let m = choose|m: int| 0 <= m < front.len() && front[m] == x;
                    assert(list[m] == x);
                }
            } else {
                assert(list[list.len() - 1] == x);
            }
        }
    }
}

/// The files of a directory are put in the order of their names, and none is lost or
/// made up.
pub proof fn law_files_are_put_in_order(list: Seq<Seq<char>>)
    ensures
        in_name_order(by_name(list)),
        by_name(list).to_multiset() == list.to_multiset(),
    decreases list.len(),
{
    broadcast use vstd::seq_lib::group_to_multiset_ensures;

    if list.len() > 0 {
        law_files_are_put_in_order(list.drop_last());
        lemma_insert_by_name(by_name(list.drop_last()), list.last());
        assert(list =~= list.drop_last().push(list.last()));
    } else {
        assert(list =~= seq![]);
        assert(by_name(list) =~= list);
    }
}

/// The files of a directory come in the order of their names: of two, the one that comes
/// first has the name that goes before.
pub proof fn law_of_two_files_the_first_name_comes_first(
    list: Seq<Seq<char>>,
    i: int,
    j: int,
    x: Seq<char>,
    y: Seq<char>,
)
    requires
        0 <= i < by_name(list).len(),
        0 <= j < by_name(list).len(),
        file_name(by_name(list)[i]) == Some(x),
        file_name(by_name(list)[j]) == Some(y),
        precedes(x, y),
    ensures
        i < j,
{
    law_files_are_put_in_order(list);
    lemma_precedes_total(x, y);
    let sorted = by_name(list);
    if j < i {
        assert(!named_before(sorted[i], sorted[j]));
    }
}

/// Files that were read in order stay as they were read, and so do files of one name.
pub proof fn law_files_in_order_stay(list: Seq<Seq<char>>)
    requires
        forall|i: int, j: int|
            0 <= i < j < list.len() ==> match (
                file_name(#[trigger] list[i]),
                file_name(#[trigger] list[j]),
            ) {
                (Some(x), Some(y)) => precedes(x, y) || x == y,
                _ => false,
            },
    ensures
        by_name(list) == list,
    decreases list.len(),
{
    if list.len() > 0 {
        let rest = list.drop_last();
        assert forall|i: int, j: int| 0 <= i < j < rest.len() implies match (
            file_name(#[trigger] rest[i]),
            file_name(#[trigger] rest[j]),
        ) {
            (Some(x), Some(y)) => precedes(x, y) || x == y,
            _ => false,
        } by {
            assert(rest[i] == list[i] && rest[j] == list[j]);
        }
        law_files_in_order_stay(rest);
        if rest.len() > 0 {
            let a = rest.last();
            let b = list.last();
            assert(a == list[list.len() - 2] && b == list[list.len() - 1]);
            if named_before(b, a) {
                let x = file_name(a)->0;
                let y = file_name(b)->0;
                lemma_precedes_total(x, y);
            }
        }
        assert(by_name(list) =~= rest.push(list.last()));
        assert(rest.push(list.last()) =~= list);
    }
}

/// Two orders of the same files, no two of one name, are the same order.
proof fn lemma_order_is_unique(a: Seq<Seq<char>>, b: Seq<Seq<char>>)
    requires
        in_name_order(a),
        in_name_order(b),
        a.to_multiset() == b.to_multiset(),
        forall|i: int, j: int|
            0 <= i < j < a.len() ==> file_name(#[trigger] a[i]) != file_name(#[trigger] a[j]),
    ensures
        a == b,
    decreases a.len(),
{
    broadcast use vstd::seq_lib::group_to_multiset_ensures;

    assert(a.to_multiset().len() == a.len());
    assert(b.to_multiset().len() == b.len());
    if a.len() == 0 {
        assert(a =~= b);
    } else {
        let x = a.last();
        let y = b.last();
        assert(b.contains(x)) by {
            assert(a.contains(x));
            assert(a.to_multiset().count(x) > 0);
        }
        assert(a.contains(y)) by {
            assert(b.contains(y));
            assert(b.to_multiset().count(y) > 0);
        }
        let i = choose|i: int| 0 <= i < a.len() && a[i] == y;
        let j = choose|j: int| 0 <= j < b.len() && b[j] == x;
        if x != y {
            assert(i < a.len() - 1);
            assert(j < b.len() - 1);
            assert(!named_before(a[a.len() - 1], a[i]));
            assert(!named_before(b[b.len() - 1], b[j]));
            assert(file_name(a[i]) != file_name(a[a.len() - 1]));
            if let (Some(p), Some(q)) = (file_name(x), file_name(y)) {
                lemma_precedes_total(p, q);
            }
            assert(false);
        }
        let c = a.drop_last();
        let d = b.drop_last();
        assert(a =~= c.push(x));
        assert(b =~= d.push(x));
        assert(c.to_multiset() =~= a.to_multiset().remove(x));
        assert(d.to_multiset() =~= b.to_multiset().remove(x));
        assert forall|i: int, j: int| 0 <= i < j < c.len() implies !#[trigger] named_before(
            c[j],
            c[i],
        ) by {
            assert(!named_before(a[j], a[i]));
        }
        assert forall|i: int, j: int| 0 <= i < j < d.len() implies !#[trigger] named_before(
            d[j],
            d[i],
        ) by {
            assert(!named_before(b[j], b[i]));
        }
        assert forall|i: int, j: int| 0 <= i < j < c.len() implies file_name(#[trigger] c[i])
            != file_name(#[trigger] c[j]) by {
            assert(file_name(a[i]) != file_name(a[j]));
        }
        lemma_order_is_unique(c, d);
    }
}

/// The order in which a directory is read makes no difference to the order of its
/// fixtures, since no two files of a directory have the same name.
pub proof fn law_reading_order_makes_no_difference(a: Seq<Seq<char>>, b: Seq<Seq<char>>)
    requires
        a.to_multiset() == b.to_multiset(),
        forall|i: int, j: int|
            0 <= i < j < a.len() ==> file_name(#[trigger] a[i]) != file_name(#[trigger] a[j]),
    ensures
        by_name(a) == by_name(b),
{
    broadcast use vstd::seq_lib::group_to_multiset_ensures;

    law_files_are_put_in_order(a);
    law_files_are_put_in_order(b);
    let x = by_name(a);
    lemma_no_name_twice(a, x);
    lemma_order_is_unique(x, by_name(b));
}

/// Putting files in another order does not give two of them one name.
proof fn lemma_no_name_twice(a: Seq<Seq<char>>, b: Seq<Seq<char>>)
    requires
        a.to_multiset() == b.to_multiset(),
        forall|i: int, j: int|
            0 <= i < j < a.len() ==> file_name(#[trigger] a[i]) != file_name(#[trigger] a[j]),
    ensures
        forall|i: int, j: int|
            0 <= i < j < b.len() ==> file_name(#[trigger] b[i]) != file_name(#[trigger] b[j]),
{
    broadcast use vstd::seq_lib::group_to_multiset_ensures;

    assert(a.no_duplicates()) by {
        assert forall|i: int, j: int|
            0 <= i < a.len() && 0 <= j < a.len() && i != j implies a[i] != a[j] by {
            if i < j {
                assert(file_name(a[i]) != file_name(a[j]));
            } else {
                assert(file_name(a[j]) != file_name(a[i]));
            }
        }
    }
    a.lemma_multiset_has_no_duplicates();
    b.lemma_multiset_has_no_duplicates_conv();
    assert forall|i: int, j: int| 0 <= i < j < b.len() implies file_name(#[trigger] b[i])
        != file_name(#[trigger] b[j]) by {
        assert(b.to_multiset().count(b[i]) > 0) by {
            assert(b.contains(b[i]));
        }
        assert(b.to_multiset().count(b[j]) > 0) by {
            assert(b.contains(b[j]));
        }
        assert(a.contains(b[i]));
        assert(a.contains(b[j]));
        let p = choose|p: int| 0 <= p < a.len() && a[p] == b[i];
        let q = choose|q: int| 0 <= q < a.len() && a[q] == b[j];
        assert(b[i] != b[j]);
        if p < q {
            assert(file_name(a[p]) != file_name(a[q]));
        } else {
            assert(file_name(a[q]) != file_name(a[p]));
        }
    }
}

/// A fixture is judged by what was said about it, by whether it left an artifact, and,
/// where nothing was said, by what cargo said: evidence about other fixtures changes
/// nothing.
pub proof fn law_a_fixture_is_judged_by_its_own_evidence(
    suite: Suite,
    env: Surroundings,
    fixture: Fixture,
    one: Evidence,
    other: Evidence,
)
    requires
        messages_for(one, bin_of(fixture.relative)) == messages_for(
            other,
            bin_of(fixture.relative),
        ),
        one.compiled.contains(bin_of(fixture.relative)) == other.compiled.contains(
            bin_of(fixture.relative),
        ),
        one.stderr == other.stderr,
    ensures
        examined(suite, env, one, fixture) == examined(suite, env, other, fixture),
{
}

/// A fixture that must not compile and did is a failure, whatever else was said of it,
/// in either mode, and also in a run that writes goldens.
pub proof fn law_a_fixture_that_compiled_fails(
    suite: Suite,
    env: Surroundings,
    evidence: Evidence,
    fixture: Fixture,
)
    requires
        fixture.kind == Kind::CompileFail,
        evidence.compiled.contains(bin_of(fixture.relative)),
    ensures
        examined(suite, env, evidence, fixture) == Exam::Settled(Some(Problem::Compiled)),
{
}

/// A golden is written only where goldens were asked for, for a fixture that must not
/// compile and did not, and never without something in it.
pub proof fn law_only_a_real_failure_is_blessed(
    suite: Suite,
    env: Surroundings,
    evidence: Evidence,
    fixture: Fixture,
)
    ensures
        examined(suite, env, evidence, fixture) is Bless ==> {
            &&& blesses(suite, env)
            &&& fixture.kind == Kind::CompileFail
            &&& !evidence.compiled.contains(bin_of(fixture.relative))
            &&& trim(examined(suite, env, evidence, fixture)->Bless_0).len() > 0
        },
{
}

/// A golden passes the very fixture it was written for: in the mode it was written in,
/// and, where that was `Exact`, in any.
pub proof fn law_a_blessed_golden_passes(
    suite: Suite,
    env: Surroundings,
    evidence: Evidence,
    fixture: Fixture,
    written: Mode,
    mode: Mode,
)
    requires
        written == mode || written == Mode::Exact,
    ensures
        ({
            let blessing = Suite { overwrite: Some(true), mode: written, ..suite };
            let checking = Suite { overwrite: Some(false), mode, ..suite };
            let first = examined(blessing, env, evidence, fixture);
            let second = examined(checking, env, evidence, fixture);
            &&& first is Bless && written == mode ==> second is Compare
            &&& first is Bless && second is Compare ==> compared(
                Ok(Some(first->Bless_0)),
                second->Compare_0,
                mode,
                fixture.relative,
            ) is None
        }),
{
    let blessing = Suite { overwrite: Some(true), mode: written, ..suite };
    let checking = Suite { overwrite: Some(false), mode, ..suite };
    assert(rules_for(blessing, env, fixture) == rules_for(checking, env, fixture));
    law_exact_golden_passes_in_either_mode(told(blessing, env, evidence, fixture), written, mode);
}

/// A comparison holds up only against a golden that was read and says the same: a
/// missing golden is a failure, never an implicit bless.
pub proof fn law_only_an_equal_golden_passes(
    golden: Result<Option<Seq<char>>, Seq<char>>,
    actual: Seq<char>,
    mode: Mode,
    relative: Seq<char>,
)
    ensures
        compared(golden, actual, mode, relative) is None <==> (golden matches Ok(Some(text))
            && filtered(text, mode) == actual),
{
}

// ---------------------------------------------------------------------------
// What a directory registers.
// ---------------------------------------------------------------------------

/// Whether an entry of a directory is a fixture: a file, and its extension is `rs`.
pub open spec fn is_source(entry: Result<(Seq<char>, bool), Seq<char>>) -> bool {
    entry matches Ok((path, is_file)) && is_file && extension(path) == Some("rs"@)
}

/// Whether every entry of a directory could be read.
pub open spec fn all_read(list: Seq<Result<(Seq<char>, bool), Seq<char>>>) -> bool {
    forall|i: int| 0 <= i < list.len() ==> (#[trigger] list[i]) is Ok
}

/// Every entry of a directory is looked at by itself: what is taken of a listing is what is
/// taken of its first part and then what is taken of the rest, wherever it is parted, and
/// of a single entry it is the entry if that is a file with the extension `rs`, and nothing
/// otherwise.
pub proof fn law_every_entry_is_looked_at_by_itself(
    first: Seq<Result<(Seq<char>, bool), Seq<char>>>,
    second: Seq<Result<(Seq<char>, bool), Seq<char>>>,
    path: Seq<char>,
    is_file: bool,
)
    requires
        all_read(first),
        all_read(second),
    ensures
        sources(first) is Ok,
        sources(second) is Ok,
        sources(first + second) == Ok::<Seq<Seq<char>>, Seq<char>>(
            sources(first)->Ok_0 + sources(second)->Ok_0,
        ),
        sources(seq![Ok((path, is_file))]) == Ok::<Seq<Seq<char>>, Seq<char>>(
            if is_file && extension(path) == Some("rs"@) {
                seq![path]
            } else {
                seq![]
            },
        ),
    decreases first.len(),
{
    let one: Seq<Result<(Seq<char>, bool), Seq<char>>> = seq![Ok((path, is_file))];
    assert(one.drop_first() =~= seq![]);
    assert(sources(one.drop_first()) == Ok::<Seq<Seq<char>>, Seq<char>>(seq![]));
    assert(seq![path] + Seq::<Seq<char>>::empty() =~= seq![path]);
    let all = first + second;
    lemma_all_read(second);
    if first.len() == 0 {
        assert(all =~= second);
        assert(sources(first)->Ok_0 + sources(second)->Ok_0 =~= sources(second)->Ok_0);
    } else {
        let rest = first.drop_first();
        assert(first[0] is Ok);
        assert forall|i: int| 0 <= i < rest.len() implies (#[trigger] rest[i]) is Ok by {
            assert(rest[i] == first[i + 1]);
        }
        law_every_entry_is_looked_at_by_itself(rest, second, path, is_file);
        assert(all[0] == first[0]);
        assert(all.drop_first() =~= rest + second);
        assert(sources(all)->Ok_0 =~= sources(first)->Ok_0 + sources(second)->Ok_0);
    }
}

proof fn lemma_all_read(list: Seq<Result<(Seq<char>, bool), Seq<char>>>)
    requires
        all_read(list),
    ensures
        sources(list) is Ok,
    decreases list.len(),
{
    if list.len() > 0 {
        let rest = list.drop_first();
        assert(list[0] is Ok);
        assert forall|i: int| 0 <= i < rest.len() implies (#[trigger] rest[i]) is Ok by {
            assert(rest[i] == list[i + 1]);
        }
        lemma_all_read(rest);
    }
}

/// The fixtures of a directory are its files with the extension `rs`: each is taken as
/// often as it is listed, and nothing else is.
pub proof fn law_exactly_the_sources_are_taken(
    list: Seq<Result<(Seq<char>, bool), Seq<char>>>,
    path: Seq<char>,
)
    requires
        all_read(list),
    ensures
        sources(list) is Ok,
        sources(list)->Ok_0.to_multiset().count(path) == (if extension(path) == Some("rs"@) {
            list.to_multiset().count(Ok((path, true)))
        } else {
            0
        }),
    decreases list.len(),
{
    broadcast use vstd::seq_lib::group_to_multiset_ensures;

    lemma_all_read(list);
    let wanted: Result<(Seq<char>, bool), Seq<char>> = Ok((path, true));
    if list.len() == 0 {
        assert(list =~= seq![]);
        assert(sources(list)->Ok_0 =~= seq![]);
        assert(list.to_multiset().count(wanted) == 0) by {
            assert(!list.contains(wanted));
        }
        assert(sources(list)->Ok_0.to_multiset().count(path) == 0) by {
            assert(!sources(list)->Ok_0.contains(path));
        }
    } else {
        let most = list.drop_last();
        let last = list.last();
        let end = seq![last];
        assert(list[list.len() - 1] is Ok);
        assert(last is Ok);
        assert forall|i: int| 0 <= i < most.len() implies (#[trigger] most[i]) is Ok by {
            assert(most[i] == list[i]);
        }
        assert(all_read(end));
        law_exactly_the_sources_are_taken(most, path);
        let (name, is_file) = last->Ok_0;
        law_every_entry_is_looked_at_by_itself(most, end, name, is_file);
        assert(most + end =~= list);
        assert(most.push(last) =~= list);
        let taken = sources(most)->Ok_0;
        if is_file && extension(name) == Some("rs"@) {
            assert(sources(list)->Ok_0 =~= taken.push(name));
        } else {
            assert(sources(list)->Ok_0 =~= taken);
        }
    }
}

/// The first entry that could not be read is what is wrong with a listing, whatever stands
/// around it.
pub proof fn law_the_first_unread_entry_is_loud(
    before: Seq<Result<(Seq<char>, bool), Seq<char>>>,
    error: Seq<char>,
    after: Seq<Result<(Seq<char>, bool), Seq<char>>>,
)
    requires
        all_read(before),
    ensures
        sources(before + (seq![Err(error)] + after)) == Err::<Seq<Seq<char>>, Seq<char>>(error),
    decreases before.len(),
{
    let all = before + (seq![Err(error)] + after);
    if before.len() == 0 {
        assert(all[0] == Err::<(Seq<char>, bool), Seq<char>>(error));
    } else {
        let rest = before.drop_first();
        assert(before[0] is Ok);
        assert forall|i: int| 0 <= i < rest.len() implies (#[trigger] rest[i]) is Ok by {
            assert(rest[i] == before[i + 1]);
        }
        law_the_first_unread_entry_is_loud(rest, error, after);
        assert(all[0] == before[0]);
        assert(all.drop_first() =~= rest + (seq![Err(error)] + after));
    }
}

/// Where the fixtures in a list are.
pub open spec fn places_in(list: Seq<Fixture>) -> Seq<Seq<char>> {
    list.map_values(|f: Fixture| f.absolute)
}

/// A directory adds its fixtures behind those there were, and changes nothing else: each of
/// its `.rs` files as often as it is listed and nothing else, in the order of their names,
/// of the kind that was asked for, under its path from the manifest.
pub proof fn law_a_directory_adds_exactly_its_sources(
    suite: Suite,
    dir: Seq<char>,
    list: Seq<Result<(Seq<char>, bool), Seq<char>>>,
    kind: Kind,
)
    requires
        all_read(list),
        exists|i: int| 0 <= i < list.len() && is_source(#[trigger] list[i]),
    ensures
        ({
            let after = with_dir(suite, dir, Ok(list), kind);
            let more = after.cases.skip(suite.cases.len() as int);
            &&& after == (Suite { cases: after.cases, ..suite })
            &&& after.cases == suite.cases + more
            &&& in_name_order(places_in(more))
            &&& forall|path: Seq<char>| #[trigger]
                places_in(more).to_multiset().count(path) == (if extension(path) == Some("rs"@) {
                    list.to_multiset().count(Ok((path, true)))
                } else {
                    0
                })
            &&& forall|i: int|
                0 <= i < more.len() ==> (#[trigger] more[i]).kind == kind && more[i].relative
                    == relative_path(suite.manifest_dir, more[i].absolute)
        }),
{
    broadcast use vstd::seq_lib::group_to_multiset_ensures;

    lemma_all_read(list);
    let files = sources(list)->Ok_0;
    let i = choose|i: int| 0 <= i < list.len() && is_source(#[trigger] list[i]);
    let (path, is_file) = list[i]->Ok_0;
    law_exactly_the_sources_are_taken(list, path);
    assert(list.contains(list[i]));
    assert(list.to_multiset().count(list[i]) > 0);
    assert(list[i] == Ok::<(Seq<char>, bool), Seq<char>>((path, true)));
    assert(files.len() > 0) by {
        if files.len() == 0 {
            assert(!files.contains(path));
        }
    }
    law_files_are_put_in_order(files);
    let after = with_dir(suite, dir, Ok(list), kind);
    let added = fixtures_at(suite.manifest_dir, by_name(files), kind);
    let more = after.cases.skip(suite.cases.len() as int);
    assert(more =~= added);
    assert(after.cases =~= suite.cases + more);
    assert(places_in(more) =~= by_name(files));
    assert forall|path: Seq<char>| #[trigger] places_in(more).to_multiset().count(path) == (if extension(
        path,
    ) == Some("rs"@) {
        list.to_multiset().count(Ok((path, true)))
    } else {
        0
    }) by {
        law_exactly_the_sources_are_taken(list, path);
    }
}

/// A directory in which nothing is a fixture, or that cannot be read, registers nothing and
/// is a problem: it means that the suite is not running.
pub proof fn law_a_directory_without_fixtures_is_a_problem(
    suite: Suite,
    dir: Seq<char>,
    list: Seq<Result<(Seq<char>, bool), Seq<char>>>,
    error: Seq<char>,
    kind: Kind,
)
    requires
        all_read(list),
        forall|i: int| 0 <= i < list.len() ==> !is_source(#[trigger] list[i]),
    ensures
        ({
            let after = with_dir(suite, dir, Ok(list), kind);
            &&& after.cases == suite.cases
            &&& after.setup.len() == suite.setup.len() + 1
            &&& after.setup.drop_last() == suite.setup
            &&& after.setup.last() == (Problem::NoFixtures {
                directory: relative_path(
                    suite.manifest_dir,
                    lexical_path(suite.manifest_dir, dir),
                ),
            })
        }),
        ({
            let after = with_dir(suite, dir, Err(error), kind);
            &&& after.cases == suite.cases
            &&& after.setup.len() == suite.setup.len() + 1
            &&& after.setup.drop_last() == suite.setup
            &&& after.setup.last() is Io
            &&& after.setup.last()->Io_message == error
        }),
{
    lemma_all_read(list);
    lemma_no_sources(list);
    assert(suite.setup.push(with_dir(suite, dir, Ok(list), kind).setup.last()).drop_last()
        =~= suite.setup);
    assert(suite.setup.push(with_dir(suite, dir, Err(error), kind).setup.last()).drop_last()
        =~= suite.setup);
}

proof fn lemma_no_sources(list: Seq<Result<(Seq<char>, bool), Seq<char>>>)
    requires
        all_read(list),
        forall|i: int| 0 <= i < list.len() ==> !is_source(#[trigger] list[i]),
    ensures
        sources(list) == Ok::<Seq<Seq<char>>, Seq<char>>(seq![]),
    decreases list.len(),
{
    if list.len() > 0 {
        let rest = list.drop_first();
        assert(list[0] is Ok && !is_source(list[0]));
        assert forall|i: int| 0 <= i < rest.len() implies (#[trigger] rest[i]) is Ok && !is_source(
            rest[i],
        ) by {
            assert(rest[i] == list[i + 1]);
        }
        lemma_no_sources(rest);
    }
}

/// A fixture registered by itself comes behind those there were, of the kind that was asked
/// for, and changes nothing else.
pub proof fn law_a_file_adds_one_fixture(suite: Suite, path: Seq<char>, kind: Kind)
    ensures
        ({
            let after = with_file(suite, path, kind);
            let absolute = lexical_path(suite.manifest_dir, path);
            &&& after == (Suite { cases: after.cases, ..suite })
            &&& after.cases.len() == suite.cases.len() + 1
            &&& after.cases.drop_last() == suite.cases
            &&& after.cases.last() == (Fixture {
                relative: relative_path(suite.manifest_dir, absolute),
                absolute,
                kind,
            })
        }),
{
    assert(with_file(suite, path, kind).cases.drop_last() =~= suite.cases);
}

// ---------------------------------------------------------------------------
// What becomes of a fixture.
// ---------------------------------------------------------------------------

/// A fixture that must compile is proved by its artifact, and by nothing else: it is
/// settled without a problem if and only if its bin left one, whatever was said of it, and
/// what it is otherwise told is everything that was said, as it reads on any machine.
pub proof fn law_an_artifact_proves_a_pass_fixture(
    suite: Suite,
    env: Surroundings,
    evidence: Evidence,
    fixture: Fixture,
)
    requires
        fixture.kind == Kind::Pass,
    ensures
        examined(suite, env, evidence, fixture) == Exam::Settled(None) <==>
            evidence.compiled.contains(bin_of(fixture.relative)),
        !evidence.compiled.contains(bin_of(fixture.relative)) ==> examined(
            suite,
            env,
            evidence,
            fixture,
        ) == Exam::Settled(
            Some(
                Problem::DidNotCompile {
                    stderr: normalized(
                        rules_for(suite, env, fixture),
                        concat(messages_for(evidence, bin_of(fixture.relative))),
                        fixture.relative,
                    ),
                },
            ),
        ),
{
}

/// What a fixture that did not compile is to be compared with, or to be given as its
/// golden, is everything that was said of it, as it reads on any machine, as far as the
/// mode compares it; where that is nothing, the fixture fails, with what was said of it or,
/// where nothing was, with what cargo said.
pub proof fn law_a_fixture_is_told_by_everything_said_of_it(
    suite: Suite,
    env: Surroundings,
    evidence: Evidence,
    fixture: Fixture,
)
    requires
        fixture.kind == Kind::CompileFail,
        !evidence.compiled.contains(bin_of(fixture.relative)),
    ensures
        ({
            let said = concat(messages_for(evidence, bin_of(fixture.relative)));
            let actual = filtered(
                normalized(rules_for(suite, env, fixture), said, fixture.relative),
                suite.mode,
            );
            let exam = examined(suite, env, evidence, fixture);
            if trim(actual).len() == 0 {
                exam == Exam::Settled(
                    Some(
                        Problem::NoDiagnostics {
                            stderr: if trim(said).len() > 0 {
                                said
                            } else {
                                evidence.stderr
                            },
                        },
                    ),
                )
            } else {
                exam == Exam::Bless(actual) || exam == Exam::Compare(actual)
            }
        }),
{
}

/// Whether a run writes goldens is what the suite was told, and, where it was told nothing,
/// whether the variable says so, in any case of letters.
pub proof fn law_the_suite_decides_before_the_variable(
    suite: Suite,
    env: Surroundings,
    evidence: Evidence,
    fixture: Fixture,
)
    ensures
        suite.overwrite == Some(true) ==> blesses(suite, env) && !(examined(
            suite,
            env,
            evidence,
            fixture,
        ) is Compare),
        suite.overwrite == Some(false) ==> !blesses(suite, env) && !(examined(
            suite,
            env,
            evidence,
            fixture,
        ) is Bless),
        suite.overwrite is None && env.overwrite is None ==> !blesses(suite, env) && !(examined(
            suite,
            env,
            evidence,
            fixture,
        ) is Bless),
        suite.overwrite is None && env.overwrite is Some ==> (blesses(suite, env) <==>
            env.overwrite->0.len() == 9 && forall|i: int|
            0 <= i < 9 ==> lower(#[trigger] env.overwrite->0[i]) == "overwrite"@[i]),
        examined(suite, env, evidence, fixture) is Bless ==> blesses(suite, env),
        examined(suite, env, evidence, fixture) is Compare ==> !blesses(suite, env),
{
    reveal_strlit("overwrite");
    if suite.overwrite is None && env.overwrite is Some {
        let value = env.overwrite->0;
        if same_but_for_case(value, "overwrite"@) {
            assert forall|i: int| 0 <= i < 9 implies lower(#[trigger] value[i])
                == "overwrite"@[i] by {
                assert(lower("overwrite"@[i]) == "overwrite"@[i]);
            }
        }
        if value.len() == 9 && forall|i: int|
            0 <= i < 9 ==> lower(#[trigger] value[i]) == "overwrite"@[i] {
            assert forall|i: int| 0 <= i < value.len() implies lower(#[trigger] value[i]) == lower(
                "overwrite"@[i],
            ) by {
                assert(lower("overwrite"@[i]) == "overwrite"@[i]);
            }
        }
    }
}

/// What is wrong with a comparison says which golden it was, and, where it was read, both
/// sides as the mode compares them.
pub proof fn law_a_failed_comparison_shows_both_sides(
    golden: Seq<char>,
    error: Seq<char>,
    actual: Seq<char>,
    mode: Mode,
    relative: Seq<char>,
)
    ensures
        compared(Ok(None), actual, mode, relative) == Some(
            Problem::MissingGolden { golden: golden_of(relative) },
        ),
        filtered(golden, mode) != actual ==> compared(Ok(Some(golden)), actual, mode, relative)
            == Some(
            Problem::Mismatch {
                golden: golden_of(relative),
                expected: filtered(golden, mode),
                actual,
                mode,
            },
        ),
        compared(Err(error), actual, mode, relative) == Some(
            Problem::Io {
                context: "could not read the golden "@ + golden_of(relative),
                message: error,
            },
        ),
        blessed(Ok(()), relative) is None,
        blessed(Err(error), relative) == Some(
            Problem::Io {
                context: "could not write the golden "@ + golden_of(relative),
                message: error,
            },
        ),
{
}

// ---------------------------------------------------------------------------
// What makes a golden read the same on any machine.
// ---------------------------------------------------------------------------

/// Where cargo keeps what it downloads is what the variable says, and, without the
/// variable, `.cargo` in the home directory, whoever's home that is.
pub proof fn law_cargos_home_is_found_without_the_variable(
    suite: Suite,
    env: Surroundings,
    fixture: Fixture,
    home: Seq<char>,
)
    ensures
        env.cargo_home == Some(home) ==> rules_for(suite, env, fixture).cargo_home == Some(home),
        env.cargo_home is None && env.home == Some(home) && home.len() > 0 && home.last() != '/'
            ==> rules_for(suite, env, fixture).cargo_home == Some(home + "/.cargo"@),
        env.cargo_home is None && env.home == Some(home) && home.len() > 0 && home.last() == '/'
            ==> rules_for(suite, env, fixture).cargo_home == Some(home + ".cargo"@),
        env.cargo_home is None && env.home is None ==> rules_for(suite, env, fixture).cargo_home
            is None,
{
    reveal_strlit(".cargo");
    reveal_strlit("/.cargo");
    assert(home + seq!['/'] + ".cargo"@ =~= home + "/.cargo"@);
}

/// A fixture's rules name the places of its own run: its bin, the scratch copy of its
/// source as cargo names it and where it is, the scratch project, the host crate, and
/// every declared dependency by its placeholder.
pub proof fn law_a_fixtures_rules_name_its_own_places(
    suite: Suite,
    env: Surroundings,
    fixture: Fixture,
)
    ensures
        ({
            let rules = rules_for(suite, env, fixture);
            let root = places_of(suite, env).root;
            let bin = bin_of(fixture.relative);
            &&& rules.bin == bin
            &&& rules.scratch_relative == "src/bin/"@ + bin + ".rs"@
            &&& rules.scratch_root == root
            &&& rules.scratch_absolute == path_join(
                path_join(path_join(path_join(root, "project"@), "src"@), "bin"@),
                bin + ".rs"@,
            )
            &&& rules.manifest_dir == suite.manifest_dir
            &&& rules.dependencies.to_multiset() == placeholders(suite.dependencies).to_multiset()
        }),
{
    law_the_longest_dependency_comes_first(suite.dependencies);
}

/// A line that names a source in the registry reads the same in every home: two runs
/// without the variable that differ only in whose home it is give the same line, and it
/// says `$CARGO_REGISTRY` for where the registry is.
pub proof fn law_whose_home_it_is_makes_no_difference(
    suite: Suite,
    env: Surroundings,
    fixture: Fixture,
    one: Seq<char>,
    other: Seq<char>,
    front: Seq<char>,
    index: Seq<char>,
    rest: Seq<char>,
)
    requires
        env.cargo_home is None,
        names_registry_source(suite, env, fixture, one, front, index, rest),
        names_registry_source(suite, env, fixture, other, front, index, rest),
    ensures
        ({
            let named = front + "$CARGO_REGISTRY/"@ + rest;
            let a = Surroundings { home: Some(one), ..env };
            let b = Surroundings { home: Some(other), ..env };
            let tail = "/.cargo/registry/src/"@ + index + seq!['/'] + rest;
            &&& paths_rewritten(
                rules_for(suite, a, fixture),
                front + one + tail,
                fixture.relative,
            ) == named
            &&& paths_rewritten(
                rules_for(suite, b, fixture),
                front + other + tail,
                fixture.relative,
            ) == named
        }),
{
    lemma_registry_source(suite, env, fixture, one, front, index, rest);
    lemma_registry_source(suite, env, fixture, other, front, index, rest);
}

/// Whether a line names a source in the registry beneath a home, and nothing else that a
/// run of that home would rewrite.
pub open spec fn names_registry_source(
    suite: Suite,
    env: Surroundings,
    fixture: Fixture,
    home: Seq<char>,
    front: Seq<char>,
    index: Seq<char>,
    rest: Seq<char>,
) -> bool {
    let rules = rules_for(suite, Surroundings { home: Some(home), ..env }, fixture);
    let prefix = home + "/.cargo/registry/src/"@;
    let line = front + home + ("/.cargo/registry/src/"@ + index + seq!['/'] + rest);
    let named = front + "$CARGO_REGISTRY/"@ + rest;
    &&& home.len() > 0
    &&& home.last() != '/'
    &&& forall|i: int| 0 <= i < index.len() ==> index[i] != '/'
    &&& forall|k: int| #[trigger] occurs_at(line, prefix, k) ==> k == front.len()
    &&& free_of_scratch(rules, line)
    &&& free_of_toolchains(line)
    &&& !has_text(named, home + "/.cargo"@)
    &&& !has_text(named, rules.manifest_dir)
    &&& free_of(named, rules.dependencies)
}

proof fn lemma_registry_source(
    suite: Suite,
    env: Surroundings,
    fixture: Fixture,
    home: Seq<char>,
    front: Seq<char>,
    index: Seq<char>,
    rest: Seq<char>,
)
    requires
        env.cargo_home is None,
        names_registry_source(suite, env, fixture, home, front, index, rest),
    ensures
        paths_rewritten(
            rules_for(suite, Surroundings { home: Some(home), ..env }, fixture),
            front + home + ("/.cargo/registry/src/"@ + index + seq!['/'] + rest),
            fixture.relative,
        ) == front + "$CARGO_REGISTRY/"@ + rest,
{
    reveal_strlit("/.cargo");
    reveal_strlit("/registry/src/");
    reveal_strlit("/.cargo/registry/src/");
    let here = Surroundings { home: Some(home), ..env };
    let rules = rules_for(suite, here, fixture);
    let cargo = home + "/.cargo"@;
    let line = front + home + ("/.cargo/registry/src/"@ + index + seq!['/'] + rest);
    law_cargos_home_is_found_without_the_variable(suite, here, fixture, home);
    assert(cargo + "/registry/src/"@ =~= home + "/.cargo/registry/src/"@);
    assert(line =~= front + (cargo + "/registry/src/"@) + index + seq!['/'] + rest);
    assert(cargo.last() == 'o');
    law_the_registry_goes_by_its_placeholder(
        rules,
        cargo,
        front,
        index,
        rest,
        fixture.relative,
    );
}

} // verus!

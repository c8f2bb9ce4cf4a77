//! Sorting what one cargo invocation said.
//!
//! Every fixture is a bin target of one scratch project, and one invocation builds
//! them all, in parallel. Parallel compilation interleaves diagnostics, so the
//! output has to say which target each one came from. `--message-format=json`
//! does; plain stderr does not. So the attribution is exact rather than inferred,
//! and cargo's own status and summary lines never enter the stream that becomes a
//! golden.
use crate::environment::optional;
use crate::json::{document, fault_text, parse, text_at, Json, Read, Value};
use crate::path::{components, is_same_path, same_path};
use crate::scratch::{manifest_in, Layout};
use crate::text::{
    after, chars_of, comes_before, concat, concatenated, find, has_prefix, holds, lemma_find,
    lemma_precedes_total, lemma_precedes_transitive, lines, occurs_at, position, precedes,
    push_text, same_str, split_lines, starts_with, string_of, strings, texts, trim_end,
    trimmed_end, words,
};
use vstd::prelude::*;

verus! {

/// What one `cargo build` produced, as a value to reason about.
pub struct Evidence {
    /// Rendered diagnostics under each bin that had any, in the order cargo emitted
    /// them.
    pub messages: Map<Seq<char>, Seq<Seq<char>>>,
    /// The bins cargo produced an artifact for.
    pub compiled: Set<Seq<char>>,
    /// Rendered errors of other packages, in the order cargo emitted them.
    pub foreign: Seq<Seq<char>>,
    /// The manifests of other packages, in order, each once.
    pub other_manifests: Seq<Seq<char>>,
    pub stderr: Seq<char>,
    pub started: bool,
}

/// What one `cargo build` produced, sorted by bin target.
#[derive(Debug)]
pub struct Build {
    /// Rendered diagnostics for each bin name, in the order cargo emitted them.
    pub messages: Vec<(String, Vec<String>)>,
    /// Bin names cargo produced an artifact for, which is the only positive evidence
    /// that a target compiled. Absence of errors is not: a target that was never
    /// built also has none.
    pub compiled: Vec<String>,
    /// Rendered diagnostics from packages that are *not* the scratch project -- a
    /// path dependency that failed to build. Not attributable to any fixture, but
    /// the only description of why every fixture produced nothing.
    pub foreign: Vec<String>,
    /// Every manifest path cargo attributed a message to that was not the scratch
    /// project's. See [`Build::manifest_mismatch`].
    pub other_manifests: Vec<String>,
    /// Cargo's own stderr. Read when the build never started, and when a fixture
    /// failed with no diagnostics at all.
    pub stderr: String,
    /// Whether cargo got as far as building anything.
    pub started: bool,
}

/// What is filed under each name in a list. The first entry for a name counts.
pub open spec fn filed(list: Seq<(String, Vec<String>)>) -> Map<Seq<char>, Seq<Seq<char>>>
    decreases list.len(),
{
    if list.len() == 0 {
        Map::empty()
    } else {
        filed(list.drop_first()).insert(list[0].0@, strings(list[0].1@))
    }
}

impl View for Build {
    type V = Evidence;

    open spec fn view(&self) -> Evidence {
        Evidence {
            messages: filed(self.messages@),
            compiled: strings(self.compiled@).to_set(),
            foreign: strings(self.foreign@),
            other_manifests: strings(self.other_manifests@),
            stderr: self.stderr@,
            started: self.started,
        }
    }
}

// ---------------------------------------------------------------------------
// Filing.
// ---------------------------------------------------------------------------

/// What is filed under a bin.
pub open spec fn messages_for(evidence: Evidence, bin: Seq<char>) -> Seq<Seq<char>> {
    if evidence.messages.contains_key(bin) {
        evidence.messages[bin]
    } else {
        seq![]
    }
}

/// `list` with `x` in its place, in the order of strings, if it was not there.
pub open spec fn inserted(list: Seq<Seq<char>>, x: Seq<char>) -> Seq<Seq<char>>
    decreases list.len(),
{
    if list.len() == 0 || precedes(x, list[0]) {
        seq![x] + list
    } else if list[0] == x {
        list
    } else {
        seq![list[0]] + inserted(list.drop_first(), x)
    }
}

/// Whether a message says it is about the package with this manifest.
pub open spec fn is_about(message: Json, manifest: Seq<char>) -> bool {
    match text_at(message, seq!["manifest_path"@]) {
        Some(path) => same_path(path, manifest),
        None => false,
    }
}

/// The evidence with another package's manifest noted, where the message names
/// one.
pub open spec fn noted(evidence: Evidence, message: Json, manifest: Seq<char>) -> Evidence {
    match text_at(message, seq!["manifest_path"@]) {
        Some(path) => if same_path(path, manifest) {
            evidence
        } else {
            Evidence { other_manifests: inserted(evidence.other_manifests, path), ..evidence }
        },
        None => evidence,
    }
}

/// The evidence with one diagnostic filed: under its bin where it is about the
/// scratch project, and aside where it is another package's error. rustc's closing
/// footer is about the run rather than the code, and is dropped.
pub open spec fn with_diagnostic(evidence: Evidence, message: Json, ours: bool) -> Evidence {
    let level = text_at(message, seq!["message"@, "level"@]);
    match text_at(message, seq!["message"@, "rendered"@]) {
        None => evidence,
        Some(rendered) => if !ours {
            if level == Some("error"@) {
                Evidence { foreign: evidence.foreign.push(rendered), ..evidence }
            } else {
                evidence
            }
        } else {
            match text_at(message, seq!["target"@, "name"@]) {
                None => evidence,
                Some(bin) => if level == Some("failure-note"@) {
                    evidence
                } else {
                    Evidence {
                        messages: evidence.messages.insert(
                            bin,
                            messages_for(evidence, bin).push(rendered),
                        ),
                        ..evidence
                    }
                },
            }
        },
    }
}

/// The evidence with one artifact noted, where it is about the scratch project.
pub open spec fn with_artifact(evidence: Evidence, message: Json, ours: bool) -> Evidence {
    match text_at(message, seq!["target"@, "name"@]) {
        Some(bin) => if ours {
            Evidence { compiled: evidence.compiled.insert(bin), ..evidence }
        } else {
            evidence
        },
        None => evidence,
    }
}

/// The evidence after one cargo message.
pub open spec fn absorbed(evidence: Evidence, message: Json, manifest: Seq<char>) -> Evidence {
    match text_at(message, seq!["reason"@]) {
        None => evidence,
        Some(reason) => {
            let ours = is_about(message, manifest);
            let heard = noted(evidence, message, manifest);
            if reason == "compiler-message"@ {
                with_diagnostic(heard, message, ours)
            } else if reason == "compiler-artifact"@ {
                with_artifact(heard, message, ours)
            } else if reason == "build-finished"@ {
                Evidence { started: true, ..heard }
            } else {
                heard
            }
        },
    }
}

/// How a cargo message opens. Cargo puts `reason` first in every one it emits, and
/// this is only used to find a message that is *not* at the start of its line.
pub const MESSAGE_OPENING: &'static str = "{\"reason\":";

/// The message on a line that does not open like one: what follows something else
/// on the line, where the rest of the line is a whole message.
pub open spec fn buried(line: Seq<char>) -> Option<Json> {
    match find(line, MESSAGE_OPENING@, 0) {
        None => None,
        Some(at) => match document(line.skip(at)) {
            Read::Found(message, _) => Some(message),
            Read::Fault(_, _) => None,
        },
    }
}

/// The evidence after one line, and what is wrong with it, if anything is. A line
/// that opens like a message has to be one. A line that does not is someone else's
/// output, and is skipped but for a message buried in it.
pub open spec fn heard(evidence: Evidence, line: Seq<char>, manifest: Seq<char>) -> (
    Evidence,
    Option<Seq<char>>,
) {
    if starts_with(line, "{"@) {
        match document(line) {
            Read::Found(message, _) => (absorbed(evidence, message, manifest), None),
            Read::Fault(message, byte) => (
                evidence,
                Some("could not parse cargo's JSON output: "@ + fault_text(message, byte)),
            ),
        }
    } else {
        match buried(line) {
            Some(message) => (absorbed(evidence, message, manifest), None),
            None => (evidence, None),
        }
    }
}

/// The evidence after a list of lines, up to the first with something wrong, and
/// what that is.
pub open spec fn taken_in(evidence: Evidence, list: Seq<Seq<char>>, manifest: Seq<char>) -> (
    Evidence,
    Option<Seq<char>>,
)
    decreases list.len(),
{
    if list.len() == 0 {
        (evidence, None)
    } else {
        let (next, wrong) = heard(evidence, list[0], manifest);
        if wrong is Some {
            (next, wrong)
        } else {
            taken_in(next, list.drop_first(), manifest)
        }
    }
}

// ---------------------------------------------------------------------------
// Reading the evidence.
// ---------------------------------------------------------------------------

/// Whether anything was attributed to a bin of the scratch project.
pub open spec fn attributed(evidence: Evidence) -> bool {
    !(evidence.messages.dom() =~= Set::empty()) || !(evidence.compiled =~= Set::empty())
}

/// Why nothing was built, when nothing was and another package said why.
pub open spec fn blamed(evidence: Evidence) -> Option<Seq<char>> {
    let report = trim_end(concat(evidence.foreign));
    if attributed(evidence) || report.len() == 0 {
        None
    } else {
        Some(report)
    }
}

/// The first path whose answer is yes.
pub open spec fn first_yes(list: Seq<Seq<char>>, answers: Seq<bool>) -> Option<Seq<char>>
    decreases list.len(),
{
    if list.len() == 0 || answers.len() == 0 {
        None
    } else if answers[0] {
        Some(list[0])
    } else {
        first_yes(list.drop_first(), answers.drop_first())
    }
}

/// The manifest the messages came under, where it is another spelling of ours.
/// `answers` says of each of the other manifests whether it names the same file.
pub open spec fn mismatched(evidence: Evidence, answers: Seq<bool>) -> Option<Seq<char>> {
    if attributed(evidence) {
        None
    } else {
        first_yes(evidence.other_manifests, answers)
    }
}

/// An entry for the first of a name replaces what is filed under it.
proof fn lemma_filed_update(
    list: Seq<(String, Vec<String>)>,
    i: int,
    entry: (String, Vec<String>),
)
    requires
        0 <= i < list.len(),
        entry.0@ == list[i].0@,
        forall|k: int| 0 <= k < i ==> (#[trigger] list[k]).0@ != list[i].0@,
    ensures
        filed(list.update(i, entry)) == filed(list).insert(entry.0@, strings(entry.1@)),
        filed(list).contains_key(list[i].0@),
        filed(list)[list[i].0@] == strings(list[i].1@),
    decreases list.len(),
{
    let rest = list.drop_first();
    let changed = list.update(i, entry);
    if i == 0 {
        assert(changed.drop_first() =~= rest);
        assert(filed(changed) =~= filed(list).insert(entry.0@, strings(entry.1@)));
    } else {
        assert(list[i] == rest[i - 1]);
        assert(list[0].0@ != list[i].0@);
        assert forall|k: int| 0 <= k < i - 1 implies (#[trigger] rest[k]).0@ != rest[i
            - 1].0@ by {
            assert(rest[k] == list[k + 1]);
        }
        lemma_filed_update(rest, i - 1, entry);
        assert(changed.drop_first() =~= rest.update(i - 1, entry));
        assert(filed(changed) =~= filed(list).insert(entry.0@, strings(entry.1@)));
    }
}

/// An entry for a new name is filed under it.
proof fn lemma_filed_push(list: Seq<(String, Vec<String>)>, entry: (String, Vec<String>))
    requires
        forall|k: int| 0 <= k < list.len() ==> (#[trigger] list[k]).0@ != entry.0@,
    ensures
        filed(list.push(entry)) == filed(list).insert(entry.0@, strings(entry.1@)),
        !filed(list).contains_key(entry.0@),
    decreases list.len(),
{
    reveal_with_fuel(filed, 2);
    if list.len() == 0 {
        assert(list.push(entry).drop_first() =~= seq![]);
        assert(filed(list.push(entry)) =~= filed(list).insert(entry.0@, strings(entry.1@)));
    } else {
        let rest = list.drop_first();
        assert forall|k: int| 0 <= k < rest.len() implies (#[trigger] rest[k]).0@ != entry.0@ by {
            assert(rest[k] == list[k + 1]);
        }
        lemma_filed_push(rest, entry);
        assert(list[0].0@ != entry.0@);
        assert(list.push(entry).drop_first() =~= rest.push(entry));
        assert(filed(list.push(entry)) =~= filed(list).insert(entry.0@, strings(entry.1@)));
    }
}

/// Where the entry for a name stands.
fn entry_for(list: &Vec<(String, Vec<String>)>, bin: &str) -> (r: Option<usize>)
    ensures
        match r {
            Some(i) => i < list@.len() && list@[i as int].0@ == bin@ && (forall|k: int|
                0 <= k < i ==> (#[trigger] list@[k]).0@ != bin@),
            None => forall|k: int| 0 <= k < list@.len() ==> (#[trigger] list@[k]).0@ != bin@,
        },
{
    let mut i: usize = 0;
    while i < list.len()
        invariant
            i <= list@.len(),
            forall|k: int| 0 <= k < i ==> (#[trigger] list@[k]).0@ != bin@,
        decreases list@.len() - i,
    {
        if same_str(list[i].0.as_str(), bin) {
            return Some(i);
        }
        i += 1;
    }
    None
}

/// Put `x` into `list` where it belongs in the order of strings, if it is not
/// there.
fn insert_text(list: &mut Vec<String>, x: &str)
    ensures
        strings(final(list)@) == inserted(strings(old(list)@), x@),
{
    let ghost all = strings(list@);
    let text = chars_of(x);
    let mut i: usize = 0;
    assert(all.skip(0) =~= all);
    assert(inserted(all, x@) =~= all.take(0) + inserted(all.skip(0), x@));
    while i < list.len()
        invariant
            i <= list@.len(),
            list@ == old(list)@,
            all == strings(list@),
            text@ == x@,
            inserted(all, x@) =~= all.take(i as int) + inserted(all.skip(i as int), x@),
        decreases list@.len() - i,
    {
        let ghost rest = all.skip(i as int);
        assert(rest[0] == list@[i as int]@);
        assert(rest.drop_first() =~= all.skip(i + 1));
        let here = chars_of(list[i].as_str());
        if comes_before(text.as_slice(), here.as_slice()) {
            list.insert(i, x.to_owned());
            assert(strings(list@) =~= all.take(i as int) + (seq![x@] + rest));
            return;
        }
        if same_str(list[i].as_str(), x) {
            assert(all.take(i as int) + rest =~= all);
            return;
        }
        assert(all.take(i + 1) =~= all.take(i as int) + seq![rest[0]]);
        i += 1;
    }
    assert(all.skip(i as int) =~= seq![]);
    list.push(x.to_owned());
    assert(strings(list@) =~= all.take(i as int) + (seq![x@] + all.skip(i as int)));
}

impl Build {
    /// Nothing said yet, but for what cargo wrote to stderr.
    pub fn new(stderr: String) -> (r: Self)
        ensures
            r@ == (Evidence {
                messages: Map::empty(),
                compiled: Set::empty(),
                foreign: seq![],
                other_manifests: seq![],
                stderr: stderr@,
                started: false,
            }),
    {
        let r = Build {
            messages: Vec::new(),
            compiled: Vec::new(),
            foreign: Vec::new(),
            other_manifests: Vec::new(),
            stderr,
            started: false,
        };
        assert(r@.compiled =~= Set::empty());
        assert(r@.foreign =~= seq![]);
        assert(r@.other_manifests =~= seq![]);
        r
    }

    /// The diagnostics for one bin, joined as they would have been rendered.
    pub fn diagnostics(&self, bin: &str) -> (r: String)
        ensures
            r@ == concat(messages_for(self@, bin@)),
    {
        match entry_for(&self.messages, bin) {
            Some(i) => {
                proof {
                    lemma_filed_update(self.messages@, i as int, self.messages@[i as int]);
                }
                concatenated(&self.messages[i].1)
            },
            None => {
                proof {
                    lemma_unfiled(self.messages@, bin@);
                }
                String::new()
            },
        }
    }

    /// Whether cargo produced an artifact for this bin.
    pub fn compiled(&self, bin: &str) -> (r: bool)
        ensures
            r == self@.compiled.contains(bin@),
    {
        holds(&self.compiled, bin)
    }

    /// Whether anything was attributed to a bin of the scratch project.
    pub fn anything_attributed(&self) -> (r: bool)
        ensures
            r == attributed(self@),
    {
        proof {
            if self.messages@.len() > 0 {
                assert(self@.messages.dom().contains(self.messages@[0].0@));
            }
            if self.compiled@.len() > 0 {
                assert(strings(self.compiled@)[0] == self.compiled@[0]@);
                assert(self@.compiled.contains(self.compiled@[0]@));
            } else {
                assert(self@.compiled =~= Set::empty());
            }
        }
        self.messages.len() > 0 || self.compiled.len() > 0
    }

    /// Why nothing was built, when nothing was built *and another package said
    /// why*.
    ///
    /// A dependency that fails to compile leaves every fixture with no diagnostics
    /// and no artifact, which on its own reads as a harness bug. The dependency's
    /// own errors say what actually happened.
    ///
    /// Another package's errors are the only thing that answers this. Falling back
    /// to cargo's stderr would also catch the case where every fixture failed with
    /// diagnostics cargo suppressed, and report it as a failure of the run -- but
    /// that is a property of each fixture.
    pub fn nothing_built(&self) -> (r: Option<String>)
        ensures
            optional(r) == blamed(self@),
    {
        if self.anything_attributed() {
            return None;
        }
        let all = concatenated(&self.foreign);
        let chars = chars_of(all.as_str());
        let report = trimmed_end(chars.as_slice());
        if report.len() == 0 {
            None
        } else {
            Some(string_of(report))
        }
    }

    /// The manifests to ask about before [`Build::manifest_mismatch`]: none where
    /// something was attributed, since a single mismatch detaches everything.
    pub fn suspects(&self) -> (r: Vec<String>)
        ensures
            strings(r@) == (if attributed(self@) {
                seq![]
            } else {
                self@.other_manifests
            }),
    {
        let mut out: Vec<String> = Vec::new();
        if self.anything_attributed() {
            assert(strings(out@) =~= seq![]);
            return out;
        }
        let mut i: usize = 0;
        while i < self.other_manifests.len()
            invariant
                i <= self.other_manifests@.len(),
                strings(out@) =~= strings(self.other_manifests@).take(i as int),
            decreases self.other_manifests@.len() - i,
        {
            let ghost done = strings(out@);
            let path = self.other_manifests[i].clone();
            out.push(path);
            assert(strings(out@) =~= done.push(path@));
            i += 1;
        }
        assert(strings(out@) =~= strings(self.other_manifests@));
        out
    }

    /// The scratch project's own messages arriving under a path that does not
    /// compare equal to the one cargo was handed.
    ///
    /// Attribution is by manifest path, and it has to be: target names are not a
    /// namespace, so a declared dependency is free to have a target named like a
    /// fixture's bin. The comparison is of paths as text, so a path that names the
    /// same file by a different spelling detaches *every* message from *every*
    /// fixture at once, and nothing a fixture could report points at the cause.
    ///
    /// `same_file` says of each of the other manifests whether it names the same
    /// file as `ours`. Returns the path handed to cargo and the one cargo reported
    /// back.
    pub fn manifest_mismatch(&self, ours: &str, same_file: &Vec<bool>) -> (r: Option<
        (String, String),
    >)
        ensures
            match r {
                Some((handed, reported)) => handed@ == ours@ && mismatched(self@, same_file@)
                    == Some(reported@),
                None => mismatched(self@, same_file@) is None,
            },
    {
        if self.anything_attributed() {
            return None;
        }
        let ghost all = strings(self.other_manifests@);
        let mut i: usize = 0;
        assert(all.skip(0) =~= all);
        assert(same_file@.skip(0) =~= same_file@);
        while i < self.other_manifests.len() && i < same_file.len()
            invariant
                i <= self.other_manifests@.len(),
                i <= same_file@.len(),
                all == strings(self.other_manifests@),
                !attributed(self@),
                first_yes(all.skip(i as int), same_file@.skip(i as int)) == first_yes(
                    all,
                    same_file@,
                ),
            decreases self.other_manifests@.len() - i,
        {
            assert(all.skip(i as int)[0] == self.other_manifests@[i as int]@);
            assert(all.skip(i as int).drop_first() =~= all.skip(i + 1));
            assert(same_file@.skip(i as int).drop_first() =~= same_file@.skip(i + 1));
            if same_file[i] {
                return Some((ours.to_owned(), self.other_manifests[i].clone()));
            }
            i += 1;
        }
        None
    }

    /// File one rendered diagnostic under a bin.
    fn file(&mut self, bin: &str, rendered: &str)
        ensures
            final(self)@ == (Evidence {
                messages: old(self)@.messages.insert(
                    bin@,
                    messages_for(old(self)@, bin@).push(rendered@),
                ),
                ..old(self)@
            }),
    {
        let ghost list = self.messages@;
        match entry_for(&self.messages, bin) {
            Some(i) => {
                let (name, mut under) = self.messages.remove(i);
                let ghost done = strings(under@);
                under.push(rendered.to_owned());
                assert(strings(under@) =~= done.push(rendered@));
                self.messages.insert(i, (name, under));
                proof {
                    assert(self.messages@ =~= list.update(i as int, (name, under)));
                    lemma_filed_update(list, i as int, (name, under));
                }
            },
            None => {
                let mut under: Vec<String> = Vec::new();
                under.push(rendered.to_owned());
                assert(strings(under@) =~= seq![rendered@]);
                let name = bin.to_owned();
                self.messages.push((name, under));
                proof {
                    lemma_filed_push(list, (name, under));
                    assert(seq![].push(rendered@) =~= seq![rendered@]);
                }
            },
        }
    }
}

/// A name no entry has is filed nowhere.
proof fn lemma_unfiled(list: Seq<(String, Vec<String>)>, bin: Seq<char>)
    requires
        forall|k: int| 0 <= k < list.len() ==> (#[trigger] list[k]).0@ != bin,
    ensures
        !filed(list).contains_key(bin),
    decreases list.len(),
{
    if list.len() > 0 {
        let rest = list.drop_first();
        assert forall|k: int| 0 <= k < rest.len() implies (#[trigger] rest[k]).0@ != bin by {
            assert(rest[k] == list[k + 1]);
        }
        lemma_unfiled(rest, bin);
        assert(list[0].0@ != bin);
    }
}

/// Whether a text that may be missing is this one.
fn is_some_text(text: Option<&str>, word: &str) -> (r: bool)
    ensures
        r == (match text {
            Some(t) => t@ == word@,
            None => false,
        }),
{
    match text {
        Some(t) => same_str(t, word),
        None => false,
    }
}

/// The string under one key.
fn text_under<'a>(message: &'a Value, key: &str) -> (r: Option<&'a str>)
    ensures
        match r {
            Some(text) => text_at(message@, seq![key@]) == Some(text@),
            None => text_at(message@, seq![key@]) is None,
        },
{
    let path: [&str; 1] = [key];
    assert(words(path@) =~= seq![key@]);
    message.path_str(path.as_slice())
}

/// The string under one key of the object under another.
fn text_within<'a>(message: &'a Value, outer: &str, inner: &str) -> (r: Option<&'a str>)
    ensures
        match r {
            Some(text) => text_at(message@, seq![outer@, inner@]) == Some(text@),
            None => text_at(message@, seq![outer@, inner@]) is None,
        },
{
    let path: [&str; 2] = [outer, inner];
    assert(words(path@) =~= seq![outer@, inner@]);
    message.path_str(path.as_slice())
}

/// File one cargo message under the target it belongs to.
///
/// `manifest` is the scratch project's own manifest path, and every record is
/// checked against it. Target names are not a namespace: a declared dependency is
/// free to be called the same thing as a generated bin, and without this a
/// dependency's `compiler-artifact` would stand as proof that a fixture compiled.
/// Anything a proc macro prints to stdout would forge the same evidence.
pub fn absorb(build: &mut Build, message: &Value, manifest: &str)
    ensures
        final(build)@ == absorbed(old(build)@, message@, manifest@),
{
    let reason = match text_under(message, "reason") {
        Some(reason) => reason,
        None => {
            return;
        },
    };
    let mut ours: bool = false;
    if let Some(path) = text_under(message, "manifest_path") {
        ours = is_same_path(path, manifest);
        if !ours {
            insert_text(&mut build.other_manifests, path);
        }
    }
    let ghost noticed = build@;
    assert(noticed == noted(old(build)@, message@, manifest@));
    assert(ours == is_about(message@, manifest@));
    if same_str(reason, "compiler-message") {
        let rendered = match text_within(message, "message", "rendered") {
            Some(rendered) => rendered,
            None => {
                return;
            },
        };
        let level = text_within(message, "message", "level");
        if !ours {
            // Another package's diagnostic. Kept only to explain a run in which no
            // fixture built at all.
            if is_some_text(level, "error") {
                build.foreign.push(rendered.to_owned());
                assert(build@.foreign =~= noticed.foreign.push(rendered@));
            }
            return;
        }
        // The footer is about the run. Every other level is the compiler talking
        // about the fixture, and is kept: dropping an unrecognized level would
        // quietly shorten a golden.
        if let Some(bin) = text_within(message, "target", "name") {
            if !is_some_text(level, "failure-note") {
                build.file(bin, rendered);
            }
        }
    } else if same_str(reason, "compiler-artifact") {
        if let Some(bin) = text_within(message, "target", "name") {
            if ours {
                let ghost held = strings(build.compiled@);
                if !holds(&build.compiled, bin) {
                    build.compiled.push(bin.to_owned());
                    proof {
                        lemma_to_set_push(held, bin@);
                        assert(strings(build.compiled@) =~= held.push(bin@));
                    }
                } else {
                    assert(held.to_set().insert(bin@) =~= held.to_set());
                }
                assert(build@ == with_artifact(noticed, message@, ours));
            }
        }
    } else if same_str(reason, "build-finished") {
        // Emitted once the build machinery has run, whether or not compilation
        // succeeded. Its absence is how a cargo-level failure is recognized.
        build.started = true;
    }
}

proof fn lemma_to_set_push(list: Seq<Seq<char>>, x: Seq<char>)
    ensures
        list.push(x).to_set() == list.to_set().insert(x),
{
    assert forall|y: Seq<char>| list.push(x).to_set().contains(y) <==> list.to_set().insert(
        x,
    ).contains(y) by {
        if list.push(x).contains(y) {
            let i = choose|i: int| 0 <= i < list.push(x).len() && list.push(x)[i] == y;
            if i < list.len() {
                assert(list[i] == y);
                assert(list.contains(y));
            }
        }
        if list.contains(y) {
            let i = choose|i: int| 0 <= i < list.len() && list[i] == y;
            assert(list.push(x)[i] == y);
        }
        assert(list.push(x)[list.len() as int] == x);
    }
    assert(list.push(x).to_set() =~= list.to_set().insert(x));
}

/// Sort one line of an invocation's stdout into `build`.
fn ingest_line(build: &mut Build, line: &[char], manifest: &str) -> (r: Result<(), String>)
    ensures
        match r {
            Ok(_) => heard(old(build)@, line@, manifest@) == (final(build)@, None::<Seq<char>>),
            Err(message) => heard(old(build)@, line@, manifest@) == (
                final(build)@,
                Some(message@),
            ),
        },
{
    if has_prefix(line, "{") {
        let text = string_of(line);
        match parse(text.as_str()) {
            Ok(message) => {
                absorb(build, &message, manifest);
            },
            Err(error) => {
                let mut out = chars_of("could not parse cargo's JSON output: ");
                let why = error.to_string();
                push_text(&mut out, why.as_str());
                return Err(string_of(out.as_slice()));
            },
        }
    } else {
        let opening = chars_of(MESSAGE_OPENING);
        if let Some(at) = position(line, opening.as_slice(), 0) {
            let text = string_of(after(line, at));
            if let Ok(message) = parse(text.as_str()) {
                absorb(build, &message, manifest);
            }
        }
    }
    Ok(())
}

/// What comes of the lines from the `i`th on, one line further.
proof fn lemma_taken_in_step(
    evidence: Evidence,
    all: Seq<Seq<char>>,
    i: int,
    manifest: Seq<char>,
    next: Evidence,
    wrong: Option<Seq<char>>,
)
    requires
        0 <= i < all.len(),
        heard(evidence, all[i], manifest) == (next, wrong),
    ensures
        taken_in(evidence, all.skip(i), manifest) == (if wrong is Some {
            (next, wrong)
        } else {
            taken_in(next, all.skip(i + 1), manifest)
        }),
{
    let list = all.skip(i);
    assert(list[0] == all[i]);
    assert(list.drop_first() =~= all.skip(i + 1));
}

/// Sort one invocation's stdout into `build`.
///
/// Cargo forwards anything the compiler or a proc macro writes to stdout into this
/// stream verbatim. A `println!` while debugging a derive is routine, and it is
/// not cargo's JSON: it is skipped. A message found further along a line is read
/// from where it begins, since a diagnostic silently missing from a golden is too
/// quiet a failure.
///
/// A line that opens like a cargo message but will not parse is a different
/// matter: the alternative to failing is a silently short golden.
pub fn ingest(build: &mut Build, stdout: &str, manifest: &str) -> (r: Result<(), String>)
    ensures
        match r {
            Ok(_) => taken_in(old(build)@, lines(stdout@), manifest@) == (final(build)@, None::<
                Seq<char>,
            >),
            Err(message) => taken_in(old(build)@, lines(stdout@), manifest@) == (
                final(build)@,
                Some(message@),
            ),
        },
{
    let chars = chars_of(stdout);
    let list = split_lines(chars.as_slice());
    let ghost all = texts(list@);
    let mut i: usize = 0;
    assert(all.skip(0) =~= all);
    while i < list.len()
        invariant
            i <= list@.len(),
            all == texts(list@),
            all == lines(stdout@),
            taken_in(build@, all.skip(i as int), manifest@) == taken_in(
                old(build)@,
                all,
                manifest@,
            ),
        decreases list@.len() - i,
    {
        let line = list[i].as_slice();
        let ghost before = build@;
        assert(all[i as int] == line@);
        match ingest_line(build, line, manifest) {
            Ok(_) => {
                proof {
                    lemma_taken_in_step(before, all, i as int, manifest@, build@, None);
                }
            },
            Err(message) => {
                proof {
                    let wrong = Some(message@);
                    lemma_taken_in_step(before, all, i as int, manifest@, build@, wrong);
                }
                return Err(message);
            },
        }
        i += 1;
    }
    assert(all.skip(i as int) =~= seq![]);
    Ok(())
}

// ---------------------------------------------------------------------------
// The invocation.
// ---------------------------------------------------------------------------

/// The arguments of the one cargo invocation that builds every fixture.
pub open spec fn invocation(target: Seq<char>, manifest: Seq<char>) -> Seq<Seq<char>> {
    seq![
        "build"@,
        "--bins"@,
        "--keep-going"@,
        "--message-format=json"@,
        "--quiet"@,
        "--color=never"@,
        "--offline"@,
        "--target-dir"@,
        target,
        "--manifest-path"@,
        manifest,
    ]
}

/// The arguments of the one cargo invocation that builds every fixture.
///
/// `--keep-going` because cargo otherwise stops scheduling work after the first
/// target fails, and a target that was never built produces no diagnostics, which
/// is indistinguishable from one that compiled cleanly. `--color=never` because
/// cargo can be configured to force colour. `--offline` because a compile-fail
/// suite must never reach the network. The target directory is not the outer one,
/// and the manifest path is explicit, so the scratch project cannot be resolved
/// against the wrong workspace.
pub fn arguments(layout: &Layout) -> (r: Vec<String>)
    ensures
        strings(r@) == invocation(layout@.target, manifest_in(layout@)),
{
    let mut out: Vec<String> = Vec::new();
    out.push("build".to_owned());
    out.push("--bins".to_owned());
    out.push("--keep-going".to_owned());
    out.push("--message-format=json".to_owned());
    out.push("--quiet".to_owned());
    out.push("--color=never".to_owned());
    out.push("--offline".to_owned());
    out.push("--target-dir".to_owned());
    out.push(layout.target.clone());
    out.push("--manifest-path".to_owned());
    out.push(layout.manifest());
    assert(strings(out@) =~= invocation(layout@.target, manifest_in(layout@)));
    out
}

/// Whether a variable is kept from the fixture build.
pub open spec fn is_withheld(variable: Seq<char>) -> bool {
    ||| variable == "RUSTFLAGS"@
    ||| variable == "CARGO_BUILD_RUSTFLAGS"@
    ||| variable == "CARGO_TARGET_DIR"@
    ||| starts_with(variable, "CARGO_PROFILE_"@)
}

/// Whether a variable is kept from the fixture build.
///
/// An inherited `-D warnings` turns every fixture's warnings into errors, and an
/// inherited profile setting changes which errors there are. A shell variable
/// differs between two people on the same commit; the goldens must not. A target
/// directory is given by argument, and leaving the variable set would make the
/// effective one ambiguous to anyone reading a failure.
pub fn withholds(variable: &str) -> (r: bool)
    ensures
        r == is_withheld(variable@),
{
    let chars = chars_of(variable);
    same_str(variable, "RUSTFLAGS") || same_str(variable, "CARGO_BUILD_RUSTFLAGS") || same_str(
        variable,
        "CARGO_TARGET_DIR",
    ) || has_prefix(chars.as_slice(), "CARGO_PROFILE_")
}

/// The variables among these that are kept from the fixture build.
pub open spec fn withheld_among(list: Seq<Seq<char>>) -> Seq<Seq<char>>
    decreases list.len(),
{
    if list.len() == 0 {
        seq![]
    } else if is_withheld(list[0]) {
        seq![list[0]] + withheld_among(list.drop_first())
    } else {
        withheld_among(list.drop_first())
    }
}

/// The variables among these that are kept from the fixture build.
pub fn withheld(variables: &Vec<String>) -> (r: Vec<String>)
    ensures
        strings(r@) == withheld_among(strings(variables@)),
{
    let mut out: Vec<String> = Vec::new();
    let ghost all = strings(variables@);
    let mut i: usize = 0;
    assert(all.skip(0) =~= all);
    while i < variables.len()
        invariant
            i <= variables@.len(),
            all == strings(variables@),
            strings(out@) + withheld_among(all.skip(i as int)) =~= withheld_among(all),
        decreases variables@.len() - i,
    {
        let ghost done = strings(out@);
        assert(all.skip(i as int)[0] == variables@[i as int]@);
        assert(all.skip(i as int).drop_first() =~= all.skip(i + 1));
        if withholds(variables[i].as_str()) {
            let name = variables[i].clone();
            out.push(name);
            assert(strings(out@) =~= done.push(name@));
        }
        i += 1;
    }
    assert(all.skip(i as int) =~= seq![]);
    out
}

/// The text of each name and value in a list.
pub open spec fn assignments(list: Seq<(String, String)>) -> Seq<(Seq<char>, Seq<char>)> {
    list.map_values(|p: (String, String)| (p.0@, p.1@))
}

/// The variables the fixture build sets, whatever they were.
pub open spec fn overrides() -> Seq<(Seq<char>, Seq<char>)> {
    seq![("CARGO_ENCODED_RUSTFLAGS"@, ""@)]
}

/// The variables the fixture build sets, whatever they were.
///
/// Withholding the variables that hold flags is not enough: cargo also reads
/// `[build] rustflags` from configuration files above its working directory, and the
/// scratch project lies inside the host crate's target directory. This variable sits at
/// the top of cargo's order, and an empty value means no flags rather than unset.
pub fn overriding() -> (r: Vec<(String, String)>)
    ensures
        assignments(r@) == overrides(),
{
    let mut out: Vec<(String, String)> = Vec::new();
    out.push(("CARGO_ENCODED_RUSTFLAGS".to_owned(), "".to_owned()));
    assert(assignments(out@) =~= overrides());
    out
}

/// The variables a process gets from one that has `inherited`, takes out those named in
/// `removed` and then sets those in `set`.
pub open spec fn handed(
    inherited: Map<Seq<char>, Seq<char>>,
    removed: Seq<Seq<char>>,
    set: Seq<(Seq<char>, Seq<char>)>,
) -> Map<Seq<char>, Seq<char>>
    decreases set.len(),
{
    if set.len() == 0 {
        inherited.remove_keys(removed.to_set())
    } else {
        handed(inherited, removed, set.drop_last()).insert(set.last().0, set.last().1)
    }
}

/// Whether a file has to be written for it to hold `contents`: not where it does
/// already, so an unchanged fixture does not churn cargo's mtime-based fingerprint.
pub fn needs_writing(existing: &Option<String>, contents: &str) -> (r: bool)
    ensures
        r == (optional(*existing) != Some(contents@)),
{
    match existing {
        Some(text) => !same_str(text.as_str(), contents),
        None => true,
    }
}

// ---------------------------------------------------------------------------
// What sorting promises.
// ---------------------------------------------------------------------------

/// Nothing another package says, and nothing that names no package, is evidence
/// about a fixture: it neither reaches a bin's diagnostics nor stands as proof that
/// a bin compiled.
pub proof fn law_another_package_is_no_evidence(
    evidence: Evidence,
    message: Json,
    manifest: Seq<char>,
)
    requires
        !is_about(message, manifest),
    ensures
        absorbed(evidence, message, manifest).messages == evidence.messages,
        absorbed(evidence, message, manifest).compiled == evidence.compiled,
{
}

/// A message is filed under the target it names and no other.
pub proof fn law_a_message_reaches_its_own_target_only(
    evidence: Evidence,
    message: Json,
    manifest: Seq<char>,
    bin: Seq<char>,
)
    requires
        text_at(message, seq!["target"@, "name"@]) != Some(bin),
    ensures
        messages_for(absorbed(evidence, message, manifest), bin) == messages_for(evidence, bin),
        absorbed(evidence, message, manifest).compiled.contains(bin)
            == evidence.compiled.contains(bin),
{
}

/// What is filed under a bin only grows, at its end, by what a message rendered.
pub proof fn law_diagnostics_keep_their_order(
    evidence: Evidence,
    message: Json,
    manifest: Seq<char>,
    bin: Seq<char>,
)
    ensures
        ({
            let before = messages_for(evidence, bin);
            let after = messages_for(absorbed(evidence, message, manifest), bin);
            after == before || exists|rendered: Seq<char>| after == #[trigger] before.push(rendered)
        }),
{
}

/// An artifact of the scratch project is the only thing that proves a bin compiled.
pub proof fn law_only_an_artifact_proves_a_bin_compiled(
    evidence: Evidence,
    message: Json,
    manifest: Seq<char>,
    bin: Seq<char>,
)
    requires
        !evidence.compiled.contains(bin),
    ensures
        absorbed(evidence, message, manifest).compiled.contains(bin) <==> {
            &&& text_at(message, seq!["reason"@]) == Some("compiler-artifact"@)
            &&& is_about(message, manifest)
            &&& text_at(message, seq!["target"@, "name"@]) == Some(bin)
        },
{
    reveal_strlit("compiler-message");
    reveal_strlit("compiler-artifact");
    assert("compiler-message"@.len() != "compiler-artifact"@.len());
}

/// Output that is not cargo's makes no difference, wherever in the stream it stands.
pub proof fn law_other_output_is_skipped(
    evidence: Evidence,
    before: Seq<Seq<char>>,
    noise: Seq<char>,
    after: Seq<Seq<char>>,
    manifest: Seq<char>,
)
    requires
        !starts_with(noise, "{"@),
        buried(noise) is None,
    ensures
        taken_in(evidence, before + seq![noise] + after, manifest) == taken_in(
            evidence,
            before + after,
            manifest,
        ),
    decreases before.len(),
{
    let with = before + seq![noise] + after;
    let without = before + after;
    if before.len() == 0 {
        assert(with.drop_first() =~= after);
        assert(without =~= after);
    } else {
        let rest = before.drop_first();
        assert(with.drop_first() =~= rest + seq![noise] + after);
        assert(without.drop_first() =~= rest + after);
        assert(with[0] == before[0]);
        assert(without[0] == before[0]);
        let next = heard(evidence, before[0], manifest).0;
        law_other_output_is_skipped(next, rest, noise, after, manifest);
    }
}

/// Whether a list is in the order of strings, with nothing in it twice.
pub open spec fn in_order(list: Seq<Seq<char>>) -> bool {
    forall|i: int, j: int| 0 <= i < j < list.len() ==> precedes(#[trigger] list[i], #[trigger] list[j])
}

proof fn lemma_inserted(list: Seq<Seq<char>>, x: Seq<char>)
    requires
        in_order(list),
    ensures
        in_order(inserted(list, x)),
        inserted(list, x).to_set() == list.to_set().insert(x),
    decreases list.len(),
{
    let out = inserted(list, x);
    if list.len() == 0 || precedes(x, list[0]) {
        assert forall|i: int, j: int| 0 <= i < j < out.len() implies precedes(
            #[trigger] out[i],
            #[trigger] out[j],
        ) by {
            assert(out[j] == list[j - 1]);
            if i > 0 {
                assert(out[i] == list[i - 1]);
            } else if j > 1 {
                assert(precedes(list[0], list[j - 1]));
                lemma_precedes_transitive(x, list[0], list[j - 1]);
            }
        }
        assert(out =~= seq![x] + list);
        lemma_to_set_front(list, x);
    } else if list[0] == x {
        assert(list.contains(list[0]));
        assert(list.to_set().insert(x) =~= list.to_set());
    } else {
        let rest = list.drop_first();
        assert forall|i: int, j: int| 0 <= i < j < rest.len() implies precedes(
            #[trigger] rest[i],
            #[trigger] rest[j],
        ) by {
            assert(rest[i] == list[i + 1]);
            assert(rest[j] == list[j + 1]);
        }
        lemma_inserted(rest, x);
        let tail = inserted(rest, x);
        lemma_precedes_total(list[0], x);
        assert forall|i: int, j: int| 0 <= i < j < out.len() implies precedes(
            #[trigger] out[i],
            #[trigger] out[j],
        ) by {
            assert(out[j] == tail[j - 1]);
            if i > 0 {
                assert(out[i] == tail[i - 1]);
            } else {
                assert(tail.contains(tail[j - 1]));
                assert(tail.to_set().contains(tail[j - 1]));
                if tail[j - 1] != x {
                    assert(rest.contains(tail[j - 1]));
                    let k = choose|k: int| 0 <= k < rest.len() && rest[k] == tail[j - 1];
                    assert(rest[k] == list[k + 1]);
                    assert(precedes(list[0], list[k + 1]));
                }
            }
        }
        lemma_to_set_front(tail, list[0]);
        lemma_to_set_front(rest, list[0]);
        assert(seq![list[0]] + rest =~= list);
        assert(out.to_set() =~= list.to_set().insert(x));
    }
}

proof fn lemma_to_set_front(list: Seq<Seq<char>>, x: Seq<char>)
    ensures
        (seq![x] + list).to_set() == list.to_set().insert(x),
{
    let out = seq![x] + list;
    assert forall|y: Seq<char>| out.to_set().contains(y) <==> list.to_set().insert(x).contains(y) by {
        if out.contains(y) {
            let i = choose|i: int| 0 <= i < out.len() && out[i] == y;
            if i > 0 {
                assert(list[i - 1] == y);
            }
        }
        if list.contains(y) {
            let i = choose|i: int| 0 <= i < list.len() && list[i] == y;
            assert(out[i + 1] == y);
        }
        assert(out[0] == x);
    }
    assert(out.to_set() =~= list.to_set().insert(x));
}

/// The other packages' manifests are kept in order, each once: a message adds the
/// one it names, if it names another package's, and nothing else.
pub proof fn law_other_manifests_stay_in_order(
    evidence: Evidence,
    message: Json,
    manifest: Seq<char>,
)
    requires
        in_order(evidence.other_manifests),
    ensures
        ({
            let after = absorbed(evidence, message, manifest).other_manifests;
            &&& in_order(after)
            &&& after.to_set() == (match text_at(message, seq!["manifest_path"@]) {
                Some(path) => if text_at(message, seq!["reason"@]) is Some && !same_path(
                    path,
                    manifest,
                ) {
                    evidence.other_manifests.to_set().insert(path)
                } else {
                    evidence.other_manifests.to_set()
                },
                None => evidence.other_manifests.to_set(),
            })
        }),
{
    if let Some(path) = text_at(message, seq!["manifest_path"@]) {
        lemma_inserted(evidence.other_manifests, path);
    }
}

/// What is withheld of a list of variables is what in it is to be withheld.
proof fn lemma_withheld_among(list: Seq<Seq<char>>, name: Seq<char>)
    ensures
        withheld_among(list).contains(name) <==> list.contains(name) && is_withheld(name),
    decreases list.len(),
{
    if list.len() > 0 {
        let rest = list.drop_first();
        let out = withheld_among(list);
        lemma_withheld_among(rest, name);
        if list.contains(name) && name != list[0] {
            let i = choose|i: int| 0 <= i < list.len() && list[i] == name;
            assert(rest[i - 1] == name);
        }
        if rest.contains(name) {
            let i = choose|i: int| 0 <= i < rest.len() && rest[i] == name;
            assert(list[i + 1] == name);
        }
        if is_withheld(list[0]) {
            assert(out[0] == list[0]);
            if withheld_among(rest).contains(name) {
                let i = choose|i: int|
                    0 <= i < withheld_among(rest).len() && withheld_among(rest)[i] == name;
                assert(out[i + 1] == name);
            }
            if out.contains(name) && name != list[0] {
                let i = choose|i: int| 0 <= i < out.len() && out[i] == name;
                assert(withheld_among(rest)[i - 1] == name);
            }
        }
    }
}

/// Whatever the variables around a run are, its build gets none of those that are
/// withheld, no flags from anywhere, and every other variable as it is.
pub proof fn law_the_build_is_cleared(
    inherited: Map<Seq<char>, Seq<char>>,
    variables: Seq<Seq<char>>,
)
    requires
        forall|name: Seq<char>| #[trigger]
            inherited.contains_key(name) ==> variables.contains(name),
    ensures
        ({
            let given = handed(inherited, withheld_among(variables), overrides());
            &&& given.contains_key("CARGO_ENCODED_RUSTFLAGS"@)
            &&& given["CARGO_ENCODED_RUSTFLAGS"@] == ""@
            &&& forall|name: Seq<char>| is_withheld(name) ==> !#[trigger] given.contains_key(name)
            &&& forall|name: Seq<char>|
                name != "CARGO_ENCODED_RUSTFLAGS"@ && !is_withheld(name) ==> (
                #[trigger] given.contains_key(name) <==> inherited.contains_key(name)) && (
                inherited.contains_key(name) ==> given[name] == inherited[name])
        }),
{
    reveal_strlit("CARGO_ENCODED_RUSTFLAGS");
    reveal_strlit("RUSTFLAGS");
    reveal_strlit("CARGO_BUILD_RUSTFLAGS");
    reveal_strlit("CARGO_TARGET_DIR");
    reveal_strlit("CARGO_PROFILE_");
    let flags = "CARGO_ENCODED_RUSTFLAGS"@;
    let removed = withheld_among(variables);
    let set = overrides();
    let given = handed(inherited, removed, set);
    let left = inherited.remove_keys(removed.to_set());
    assert(set.drop_last() =~= seq![]);
    assert(handed(inherited, removed, set.drop_last()) == left);
    assert(given == left.insert(flags, ""@));
    assert(!is_withheld(flags)) by {
        assert(flags[6] == 'E');
        if starts_with(flags, "CARGO_PROFILE_"@) {
            assert(flags.subrange(0, 14)[6] == 'P');
        }
        assert("CARGO_BUILD_RUSTFLAGS"@.len() != flags.len());
        assert("RUSTFLAGS"@.len() != flags.len());
        assert("CARGO_TARGET_DIR"@.len() != flags.len());
    }
    assert forall|name: Seq<char>| is_withheld(name) implies !#[trigger] given.contains_key(
        name,
    ) by {
        lemma_withheld_among(variables, name);
        if inherited.contains_key(name) {
            assert(removed.to_set().contains(name));
        }
    }
    assert forall|name: Seq<char>| name != flags && !is_withheld(name) implies (
    #[trigger] given.contains_key(name) <==> inherited.contains_key(name)) && (
    inherited.contains_key(name) ==> given[name] == inherited[name]) by {
        lemma_withheld_among(variables, name);
        assert(!removed.to_set().contains(name));
    }
}

/// What the withheld variables hold makes no difference to the build, nor does what
/// flags there are: two shells that agree on everything else hand it the same variables.
pub proof fn law_withheld_variables_make_no_difference(
    one: Map<Seq<char>, Seq<char>>,
    one_names: Seq<Seq<char>>,
    other: Map<Seq<char>, Seq<char>>,
    other_names: Seq<Seq<char>>,
)
    requires
        forall|name: Seq<char>| #[trigger] one.contains_key(name) ==> one_names.contains(name),
        forall|name: Seq<char>| #[trigger] other.contains_key(name) ==> other_names.contains(name),
        forall|name: Seq<char>|
            name != "CARGO_ENCODED_RUSTFLAGS"@ && !is_withheld(name) ==> (
            #[trigger] one.contains_key(name) <==> other.contains_key(name)) && (
            one.contains_key(name) ==> one[name] == other[name]),
    ensures
        handed(one, withheld_among(one_names), overrides()) == handed(
            other,
            withheld_among(other_names),
            overrides(),
        ),
{
    law_the_build_is_cleared(one, one_names);
    law_the_build_is_cleared(other, other_names);
    let a = handed(one, withheld_among(one_names), overrides());
    let b = handed(other, withheld_among(other_names), overrides());
    assert forall|name: Seq<char>| #[trigger] a.contains_key(name) <==> b.contains_key(name) by {
        if name != "CARGO_ENCODED_RUSTFLAGS"@ && !is_withheld(name) {
            assert(one.contains_key(name) <==> other.contains_key(name));
            assert(a.contains_key(name) <==> one.contains_key(name));
            assert(b.contains_key(name) <==> other.contains_key(name));
        } else if is_withheld(name) {
            assert(!a.contains_key(name) && !b.contains_key(name));
        }
    }
    assert forall|name: Seq<char>| #[trigger] a.contains_key(name) implies a[name] == b[name] by {
        if name != "CARGO_ENCODED_RUSTFLAGS"@ {
            assert(!is_withheld(name));
            assert(one.contains_key(name));
            assert(b.contains_key(name));
        }
    }
    assert(a =~= b);
}

// ---------------------------------------------------------------------------
// What one message comes to.
// ---------------------------------------------------------------------------

/// Every diagnostic of the scratch project reaches the golden of the fixture it is about:
/// whatever its level is, but for the compiler's closing footer, it is filed at the end of
/// what is filed under its target, and it changes nothing else.
pub proof fn law_every_diagnostic_is_filed(
    evidence: Evidence,
    message: Json,
    manifest: Seq<char>,
    path: Seq<char>,
    bin: Seq<char>,
    rendered: Seq<char>,
)
    requires
        text_at(message, seq!["reason"@]) == Some("compiler-message"@),
        text_at(message, seq!["manifest_path"@]) == Some(path),
        components(path) == components(manifest),
        text_at(message, seq!["target"@, "name"@]) == Some(bin),
        text_at(message, seq!["message"@, "rendered"@]) == Some(rendered),
        text_at(message, seq!["message"@, "level"@]) != Some("failure-note"@),
    ensures
        ({
            let after = absorbed(evidence, message, manifest);
            &&& messages_for(after, bin) == messages_for(evidence, bin).push(rendered)
            &&& after.messages.dom() == evidence.messages.dom().insert(bin)
            &&& forall|other: Seq<char>|
                other != bin ==> #[trigger] messages_for(after, other) == messages_for(
                    evidence,
                    other,
                )
            &&& after.compiled == evidence.compiled
            &&& after.foreign == evidence.foreign
            &&& after.other_manifests == evidence.other_manifests
            &&& after.stderr == evidence.stderr
            &&& after.started == evidence.started
        }),
{
}

/// The closing footer of a run is about the run, and leaves no trace.
pub proof fn law_the_closing_footer_is_dropped(
    evidence: Evidence,
    message: Json,
    manifest: Seq<char>,
    path: Seq<char>,
)
    requires
        text_at(message, seq!["reason"@]) == Some("compiler-message"@),
        text_at(message, seq!["manifest_path"@]) == Some(path),
        components(path) == components(manifest),
        text_at(message, seq!["message"@, "level"@]) == Some("failure-note"@),
    ensures
        absorbed(evidence, message, manifest) == evidence,
{
}

/// What another package says is set aside if it is an error, since that is what explains
/// a run in which no fixture built, and is not kept otherwise.
pub proof fn law_another_packages_error_is_set_aside(
    evidence: Evidence,
    message: Json,
    manifest: Seq<char>,
    rendered: Seq<char>,
)
    requires
        text_at(message, seq!["reason"@]) == Some("compiler-message"@),
        text_at(message, seq!["message"@, "rendered"@]) == Some(rendered),
        text_at(message, seq!["manifest_path"@]) matches Some(path) ==> components(path)
            != components(manifest),
    ensures
        ({
            let after = absorbed(evidence, message, manifest);
            &&& after.foreign == (if text_at(message, seq!["message"@, "level"@]) == Some(
                "error"@,
            ) {
                evidence.foreign.push(rendered)
            } else {
                evidence.foreign
            })
            &&& after.messages == evidence.messages
            &&& after.compiled == evidence.compiled
            &&& after.started == evidence.started
            &&& after.stderr == evidence.stderr
        }),
{
}

/// A bin compiled if it had before, or if this is an artifact of the scratch project under
/// its name; whatever else was said, an artifact once seen stays.
pub proof fn law_an_artifact_stays(
    evidence: Evidence,
    message: Json,
    manifest: Seq<char>,
    bin: Seq<char>,
)
    ensures
        absorbed(evidence, message, manifest).compiled.contains(bin) <==> {
            ||| evidence.compiled.contains(bin)
            ||| {
                &&& text_at(message, seq!["reason"@]) == Some("compiler-artifact"@)
                &&& text_at(message, seq!["target"@, "name"@]) == Some(bin)
                &&& text_at(message, seq!["manifest_path"@]) matches Some(path)
                    && components(path) == components(manifest)
            }
        },
{
    reveal_strlit("compiler-message");
    reveal_strlit("compiler-artifact");
    assert("compiler-message"@.len() != "compiler-artifact"@.len());
}

/// Cargo got as far as building once it says that it finished, and nothing that it says
/// takes that back or changes its own stderr.
pub proof fn law_only_a_finished_build_has_started(
    evidence: Evidence,
    message: Json,
    manifest: Seq<char>,
)
    ensures
        absorbed(evidence, message, manifest).started == (evidence.started || text_at(
            message,
            seq!["reason"@],
        ) == Some("build-finished"@)),
        absorbed(evidence, message, manifest).stderr == evidence.stderr,
{
    reveal_strlit("compiler-message");
    reveal_strlit("compiler-artifact");
    reveal_strlit("build-finished");
    assert("compiler-message"@.len() != "build-finished"@.len());
    assert("compiler-artifact"@.len() != "build-finished"@.len());
}

/// A message that is neither a diagnostic nor an artifact is no evidence about any
/// fixture, and blames no package.
pub proof fn law_other_messages_are_no_evidence(
    evidence: Evidence,
    message: Json,
    manifest: Seq<char>,
)
    requires
        text_at(message, seq!["reason"@]) != Some("compiler-message"@),
        text_at(message, seq!["reason"@]) != Some("compiler-artifact"@),
    ensures
        absorbed(evidence, message, manifest).messages == evidence.messages,
        absorbed(evidence, message, manifest).compiled == evidence.compiled,
        absorbed(evidence, message, manifest).foreign == evidence.foreign,
        text_at(message, seq!["reason"@]) is None ==> absorbed(evidence, message, manifest)
            == evidence,
{
}

// ---------------------------------------------------------------------------
// What a line comes to.
// ---------------------------------------------------------------------------

/// A line that opens like a message is heard as the message it reads as, and one that
/// does not read as a message is loud, and changes nothing.
pub proof fn law_a_line_that_opens_like_a_message_is_one(
    evidence: Evidence,
    line: Seq<char>,
    manifest: Seq<char>,
)
    requires
        line.len() > 0,
        line[0] == '{',
    ensures
        match document(line) {
            Read::Found(message, _) => heard(evidence, line, manifest) == (
                absorbed(evidence, message, manifest),
                None::<Seq<char>>,
            ),
            Read::Fault(_, _) => heard(evidence, line, manifest).0 == evidence && heard(
                evidence,
                line,
                manifest,
            ).1 is Some,
        },
{
    reveal_strlit("{");
    assert(line.subrange(0, 1) =~= "{"@);
}

/// What a macro prints in front of a message on its line does not hide the message.
pub proof fn law_a_message_behind_other_output_is_heard(
    evidence: Evidence,
    noise: Seq<char>,
    line: Seq<char>,
    manifest: Seq<char>,
)
    requires
        noise.len() > 0,
        noise[0] != '{',
        starts_with(line, "{\"reason\":"@),
        document(line) is Found,
        forall|k: int| #[trigger]
            occurs_at(noise + line, "{\"reason\":"@, k) ==> k >= noise.len(),
    ensures
        heard(evidence, noise + line, manifest) == heard(evidence, line, manifest),
{
    reveal_strlit("{");
    reveal_strlit("{\"reason\":");
    let whole = noise + line;
    let opening = "{\"reason\":"@;
    let n = noise.len() as int;
    assert(line.subrange(0, opening.len() as int)[0] == '{');
    assert(line.subrange(0, 1) =~= "{"@);
    if starts_with(whole, "{"@) {
        assert(whole.subrange(0, 1)[0] == noise[0]);
    }
    assert(whole.subrange(n, n + opening.len()) =~= line.subrange(0, opening.len() as int));
    lemma_find(whole, opening, 0);
    assert(occurs_at(whole, opening, n));
    assert(find(whole, opening, 0) == Some(n));
    assert(whole.skip(n) =~= line);
}

/// Output is taken in one line after the other: what comes of the first part of a stream
/// is what the rest is added to.
pub proof fn law_lines_are_taken_in_turn(
    evidence: Evidence,
    first: Seq<Seq<char>>,
    second: Seq<Seq<char>>,
    manifest: Seq<char>,
)
    ensures
        taken_in(evidence, first + second, manifest) == (if taken_in(
            evidence,
            first,
            manifest,
        ).1 is Some {
            taken_in(evidence, first, manifest)
        } else {
            taken_in(taken_in(evidence, first, manifest).0, second, manifest)
        }),
    decreases first.len(),
{
    if first.len() == 0 {
        assert(first + second =~= second);
    } else {
        let r = lemma_first_line(evidence, first, second, manifest);
        if r.1 is None {
            law_lines_are_taken_in_turn(r.0, first.drop_first(), second, manifest);
        }
    }
}

/// A stream of one line says what that line says, and one of no line says nothing.
pub proof fn law_one_line_is_heard(evidence: Evidence, line: Seq<char>, manifest: Seq<char>)
    ensures
        taken_in(evidence, seq![], manifest) == (evidence, None::<Seq<char>>),
        taken_in(evidence, seq![line], manifest) == heard(evidence, line, manifest),
{
    let r = heard(evidence, line, manifest);
    lemma_taken_in_step(evidence, seq![line], 0, manifest, r.0, r.1);
    assert(seq![line].skip(0) =~= seq![line]);
    assert(seq![line].skip(1) =~= seq![]);
}

proof fn lemma_first_line(
    evidence: Evidence,
    first: Seq<Seq<char>>,
    second: Seq<Seq<char>>,
    manifest: Seq<char>,
) -> (r: (Evidence, Option<Seq<char>>))
    requires
        first.len() > 0,
    ensures
        taken_in(evidence, first, manifest) == (if r.1 is Some {
            r
        } else {
            taken_in(r.0, first.drop_first(), manifest)
        }),
        taken_in(evidence, first + second, manifest) == (if r.1 is Some {
            r
        } else {
            taken_in(r.0, first.drop_first() + second, manifest)
        }),
{
    let all = first + second;
    assert(all[0] == first[0]);
    assert(all.drop_first() =~= first.drop_first() + second);
    let r = lemma_line_and_rest(evidence, first, manifest);
    let again = lemma_line_and_rest(evidence, all, manifest);
    assert(r == again);
    r
}

proof fn lemma_line_and_rest(evidence: Evidence, list: Seq<Seq<char>>, manifest: Seq<char>) -> (r: (
    Evidence,
    Option<Seq<char>>,
))
    requires
        list.len() > 0,
    ensures
        r == heard(evidence, list[0], manifest),
        taken_in(evidence, list, manifest) == (if r.1 is Some {
            r
        } else {
            taken_in(r.0, list.drop_first(), manifest)
        }),
{
    heard(evidence, list[0], manifest)
}

// ---------------------------------------------------------------------------
// What the evidence says of the run.
// ---------------------------------------------------------------------------

/// Another package is blamed only where no fixture has anything to show, and then with
/// every error of other packages, in order.
pub proof fn law_another_package_is_blamed_only_for_silence(evidence: Evidence)
    ensures
        blamed(evidence) is Some <==> {
            &&& forall|bin: Seq<char>| !evidence.messages.contains_key(bin)
            &&& forall|bin: Seq<char>| !evidence.compiled.contains(bin)
            &&& trim_end(concat(evidence.foreign)).len() > 0
        },
        blamed(evidence) matches Some(report) ==> report == trim_end(concat(evidence.foreign)),
{
    if forall|bin: Seq<char>| !evidence.messages.contains_key(bin) {
        assert(evidence.messages.dom() =~= Set::empty());
    }
    if forall|bin: Seq<char>| !evidence.compiled.contains(bin) {
        assert(evidence.compiled =~= Set::empty());
    }
    if evidence.messages.dom() =~= Set::empty() {
        assert forall|bin: Seq<char>| !evidence.messages.contains_key(bin) by {
            assert(!evidence.messages.dom().contains(bin));
        }
    }
}

/// The manifest that messages came under is another spelling of ours only where no fixture
/// has anything to show, and then it is the first that names the same file.
pub proof fn law_the_first_same_manifest_is_named(
    evidence: Evidence,
    answers: Seq<bool>,
    i: int,
)
    requires
        0 <= i < answers.len(),
        answers.len() == evidence.other_manifests.len(),
        forall|bin: Seq<char>| !evidence.messages.contains_key(bin),
        forall|bin: Seq<char>| !evidence.compiled.contains(bin),
        forall|j: int| 0 <= j < i ==> !answers[j],
    ensures
        answers[i] ==> mismatched(evidence, answers) == Some(evidence.other_manifests[i]),
        !answers[i] && i == answers.len() - 1 ==> mismatched(evidence, answers) is None,
{
    assert(evidence.messages.dom() =~= Set::empty());
    assert(evidence.compiled =~= Set::empty());
    lemma_first_yes(evidence.other_manifests, answers, i);
}

proof fn lemma_first_yes(list: Seq<Seq<char>>, answers: Seq<bool>, i: int)
    requires
        0 <= i < answers.len(),
        answers.len() == list.len(),
        forall|j: int| 0 <= j < i ==> !answers[j],
    ensures
        answers[i] ==> first_yes(list, answers) == Some(list[i]),
        !answers[i] && i == answers.len() - 1 ==> first_yes(list, answers) is None,
    decreases i,
{
    if i > 0 {
        assert(!answers[0]);
        lemma_first_yes(list.drop_first(), answers.drop_first(), i - 1);
    } else if answers.len() == 1 {
        assert(first_yes(list.drop_first(), answers.drop_first()) is None);
    }
}

/// Where a fixture has anything to show, no spelling of the manifest is in question.
pub proof fn law_an_attributed_message_settles_the_manifest(
    evidence: Evidence,
    answers: Seq<bool>,
    bin: Seq<char>,
)
    requires
        evidence.messages.contains_key(bin) || evidence.compiled.contains(bin),
    ensures
        mismatched(evidence, answers) is None,
        blamed(evidence) is None,
{
    assert(evidence.messages.contains_key(bin) ==> evidence.messages.dom().contains(bin));
}

/// What is filed under a bin is read as one text, in order: a further message goes at its
/// end.
pub proof fn law_messages_are_read_in_order(list: Seq<Seq<char>>, last: Seq<char>)
    ensures
        concat(list.push(last)) == concat(list) + last,
        concat(seq![]) == Seq::<char>::empty(),
    decreases list.len(),
{
    let more = list.push(last);
    if list.len() > 0 {
        law_messages_are_read_in_order(list.drop_first(), last);
        assert(more.drop_first() =~= list.drop_first().push(last));
        assert(more[0] == list[0]);
        assert(concat(more) =~= concat(list) + last);
    } else {
        assert(more.drop_first() =~= seq![]);
        assert(concat(more.drop_first()) =~= seq![]);
        assert(concat(more) =~= concat(list) + last);
    }
}

// ---------------------------------------------------------------------------
// What the invocation asks for.
// ---------------------------------------------------------------------------

/// The one invocation builds every bin and goes on past one that fails, says what it does
/// as uncoloured messages, reaches no network, and keeps to the target directory and the
/// manifest it is given.
pub proof fn law_the_invocation_keeps_to_itself(target: Seq<char>, manifest: Seq<char>)
    ensures
        ({
            let list = invocation(target, manifest);
            &&& list[0] == "build"@
            &&& list.contains("--bins"@)
            &&& list.contains("--keep-going"@)
            &&& list.contains("--message-format=json"@)
            &&& list.contains("--color=never"@)
            &&& list.contains("--offline"@)
            &&& exists|i: int|
                0 <= i < list.len() - 1 && #[trigger] list[i] == "--target-dir"@ && list[i + 1]
                    == target
            &&& exists|i: int|
                0 <= i < list.len() - 1 && #[trigger] list[i] == "--manifest-path"@ && list[i + 1]
                    == manifest
        }),
{
    let list = invocation(target, manifest);
    assert(list[1] == "--bins"@);
    assert(list[2] == "--keep-going"@);
    assert(list[3] == "--message-format=json"@);
    assert(list[5] == "--color=never"@);
    assert(list[6] == "--offline"@);
    assert(list[7] == "--target-dir"@ && list[8] == target);
    assert(list[9] == "--manifest-path"@ && list[10] == manifest);
}

/// Whatever changes the flags, the profile or the target directory of a build is withheld
/// from it, whichever profile and setting that is, and nothing else is.
pub proof fn law_what_is_withheld(name: Seq<char>, setting: Seq<char>)
    ensures
        is_withheld("RUSTFLAGS"@),
        is_withheld("CARGO_BUILD_RUSTFLAGS"@),
        is_withheld("CARGO_TARGET_DIR"@),
        is_withheld("CARGO_PROFILE_"@ + setting),
        is_withheld(name) ==> name == "RUSTFLAGS"@ || name == "CARGO_BUILD_RUSTFLAGS"@ || name
            == "CARGO_TARGET_DIR"@ || (name.len() >= 14 && name.take(14) == "CARGO_PROFILE_"@),
{
    reveal_strlit("CARGO_PROFILE_");
    let long = "CARGO_PROFILE_"@ + setting;
    assert(long.subrange(0, 14) =~= "CARGO_PROFILE_"@);
    if starts_with(name, "CARGO_PROFILE_"@) {
        assert(name.take(14) =~= name.subrange(0, 14));
    }
}

} // verus!

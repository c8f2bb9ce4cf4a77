//! Making a diagnostic reproducible: the same text on any machine, and the same
//! text tomorrow unless what the fixture asserts has changed.
//!
//! Paths become placeholders, a span that points outside the fixture loses its
//! numbers, the numbers of the snippet beneath it go with them, long implementor
//! lists are cut to one shape, and the gutter is re-aligned to what is left.
use crate::environment::optional;
use crate::gutter::{
    is_attached, law_lines_outside_diagnostics_stay, opens_diagnostic, realign, realign_gutters,
};
use crate::lists::{
    count_hidden, hide_other_count, law_lines_outside_lists_stay, opens_list,
    truncate_implementor_lists, truncated,
};
use crate::path::join_path;
use crate::rewrite::{
    char_at, dir_replaced, law_a_whole_directory_is_replaced, law_part_of_a_name_is_left_alone,
    law_the_commit_makes_no_difference, law_where_the_registry_is_makes_no_difference,
    law_where_the_toolchain_is_makes_no_difference, may_end, may_start, placeholder,
    placeholder_char, placeholder_of, registry_prefix, registry_replaced, replace_registry_src,
    replace_sysroot, sysroot_replaced, sysroot_stripped, with_dir_replaced, CARGO_HOME,
    CARGO_REGISTRY, CRATE, DIR, LIBRARY_MARKER, OLDER_MARKER, RUST, SCRATCH,
};
use crate::scratch::{bin_relative, bin_source, declared, Dependency};
use crate::text::{
    after, before, byte_len, bytes_in, chars_of, chomp, copy_of, count_leading, count_trailing,
    has_prefix, has_text, is_digit, is_hex, is_whitespace, join, joined, leading, lemma_absent,
    lemma_leading, lemma_leading_is, lemma_replace_absent, lemma_replace_once, lemma_trailing,
    lemma_trailing_is, lines, occurs_at, push_chars, replace, replaced, split_lines, stands_at,
    starts_with, string_of, texts, trailing, trim_end, trim_start, trimmed_end, trimmed_start,
    Class,
};
use vstd::prelude::*;

verus! {

/// The path rewrites for one fixture, as a value to reason about.
pub struct Rules {
    pub scratch_absolute: Seq<char>,
    pub scratch_relative: Seq<char>,
    pub bin: Seq<char>,
    pub scratch_root: Seq<char>,
    pub manifest_dir: Seq<char>,
    pub cargo_home: Option<Seq<char>>,
    pub dependencies: Seq<(Seq<char>, Seq<char>)>,
}

/// The path rewrites for one fixture.
///
/// Built per fixture rather than per run, because two of its fields name the
/// scratch file and bin target this fixture in particular was compiled as.
#[derive(Debug)]
pub struct Normalizer {
    /// Absolute path of the scratch source file this fixture was written to.
    pub scratch_absolute: String,
    /// The same file as cargo names it: relative to the scratch package root.
    pub scratch_relative: String,
    /// The generated bin target's name, which is also the crate name rustc
    /// prints in a diagnostic about the crate as a whole.
    pub bin: String,
    /// Absolute path of the scratch root, covering both the generated project
    /// and its private target directory.
    pub scratch_root: String,
    /// Absolute path of the host crate's manifest directory.
    pub manifest_dir: String,
    /// `CARGO_HOME`, if it can be determined.
    pub cargo_home: Option<String>,
    /// One `(absolute path, placeholder)` per declared path dependency, longest
    /// path first.
    pub dependencies: Vec<(String, String)>,
}

/// The two texts of each pair in a list.
pub open spec fn pairs(list: Seq<(String, String)>) -> Seq<(Seq<char>, Seq<char>)> {
    list.map_values(|p: (String, String)| (p.0@, p.1@))
}

impl View for Normalizer {
    type V = Rules;

    open spec fn view(&self) -> Rules {
        Rules {
            scratch_absolute: self.scratch_absolute@,
            scratch_relative: self.scratch_relative@,
            bin: self.bin@,
            scratch_root: self.scratch_root@,
            manifest_dir: self.manifest_dir@,
            cargo_home: optional(self.cargo_home),
            dependencies: pairs(self.dependencies@),
        }
    }
}

// ---------------------------------------------------------------------------
// The order of dependencies.
// ---------------------------------------------------------------------------

/// `pair` put into `list` behind every path that is at least as long.
pub open spec fn insert_by_length(
    list: Seq<(Seq<char>, Seq<char>)>,
    pair: (Seq<char>, Seq<char>),
) -> Seq<(Seq<char>, Seq<char>)>
    decreases list.len(),
{
    if list.len() == 0 || byte_len(list.last().0) >= byte_len(pair.0) {
        list.push(pair)
    } else {
        insert_by_length(list.drop_last(), pair).push(list.last())
    }
}

/// The path and placeholder of each dependency, longest path first. Paths of one
/// length keep the order they were declared in.
pub open spec fn longest_first(deps: Seq<(Seq<char>, Seq<char>)>) -> Seq<(Seq<char>, Seq<char>)>
    decreases deps.len(),
{
    if deps.len() == 0 {
        seq![]
    } else {
        insert_by_length(
            longest_first(deps.drop_last()),
            (deps.last().1, placeholder_of(deps.last().0)),
        )
    }
}

/// Put `pair` into `list` behind every path that is at least as long.
fn insert_pair(list: &mut Vec<(String, String)>, pair: (String, String))
    ensures
        pairs(final(list)@) == insert_by_length(pairs(old(list)@), (pair.0@, pair.1@)),
        final(list)@.len() == old(list)@.len() + 1,
{
    let ghost all = pairs(list@);
    let ghost p = (pair.0@, pair.1@);
    let path = chars_of(pair.0.as_str());
    let size: u128 = bytes_in(path.as_slice());
    let mut at: usize = list.len();
    assert(all.take(at as int) =~= all);
    assert(all.skip(at as int) =~= seq![]);
    assert(insert_by_length(all, p) =~= insert_by_length(all.take(at as int), p) + all.skip(
        at as int,
    ));
    loop
        invariant_except_break
            at <= list@.len(),
            all == pairs(list@),
            p.0 == path@,
            size == byte_len(path@),
            insert_by_length(all, p) == insert_by_length(all.take(at as int), p) + all.skip(
                at as int,
            ),
        ensures
            at <= list@.len(),
            insert_by_length(all, p) == all.take(at as int).push(p) + all.skip(at as int),
        decreases at,
    {
        if at == 0 {
            assert(all.take(0) =~= seq![]);
            break;
        }
        let other = chars_of(list[at - 1].0.as_str());
        assert(all.take(at as int).last() == (list@[at - 1].0@, list@[at - 1].1@));
        if bytes_in(other.as_slice()) >= size {
            break;
        }
        assert(all.take(at as int).drop_last() =~= all.take(at - 1));
        assert(insert_by_length(all.take(at - 1), p).push(all[at - 1]) + all.skip(at as int)
            =~= insert_by_length(all.take(at - 1), p) + all.skip(at - 1));
        at -= 1;
    }
    list.insert(at, pair);
    assert(pairs(list@) =~= all.take(at as int).push(p) + all.skip(at as int));
}

// ---------------------------------------------------------------------------
// One line.
// ---------------------------------------------------------------------------

/// The path a span header points at, if the line is one. `::: ` heads the
/// secondary spans rustc prints for a related location.
pub open spec fn target_of(line: Seq<char>) -> Option<Seq<char>> {
    let body = trim_start(line);
    if starts_with(body, "--> "@) {
        Some(body.skip("--> "@.len() as int))
    } else if starts_with(body, "::: "@) {
        Some(body.skip("::: "@.len() as int))
    } else {
        None
    }
}

/// Whether a span target names the fixture rather than some other file.
pub open spec fn is_into(target: Seq<char>, fixture: Seq<char>) -> bool {
    let rest = target.skip(fixture.len() as int);
    starts_with(target, fixture) && (rest.len() == 0 || rest[0] == ':')
}

/// The line without the `:` and digits it ends with, if it ends with them.
pub open spec fn without_number(line: Seq<char>) -> Seq<char> {
    let digits = trailing(line, Class::Digit);
    if digits > 0 && digits < line.len() && line[line.len() - digits - 1] == ':' {
        line.take(line.len() - digits - 1)
    } else {
        line
    }
}

/// The line without the line and column it ends with.
pub open spec fn without_numbers(line: Seq<char>) -> Seq<char> {
    without_number(without_number(line))
}

/// The line with its number blanked, the gutter kept as wide as it was.
pub open spec fn number_blanked(line: Seq<char>) -> Seq<char> {
    let margin = leading(line, Class::Margin);
    Seq::new(margin, |i: int| ' ') + line.skip(margin as int)
}

/// Whether a line belongs to the snippet under a span header: a numbered source
/// line, a bare `|` row, or the `...` rustc prints where it elided lines.
pub open spec fn in_snippet(line: Seq<char>) -> bool {
    let body = trim_start(line);
    body.len() > 0 && (is_digit(body[0]) || body[0] == '|' || body[0] == '.')
}

/// A line with each dependency's path replaced by its placeholder, from the
/// `from`th dependency on.
pub open spec fn dependencies_replaced(
    line: Seq<char>,
    dependencies: Seq<(Seq<char>, Seq<char>)>,
) -> Seq<char>
    decreases dependencies.len(),
{
    if dependencies.len() == 0 {
        line
    } else {
        dependencies_replaced(
            dir_replaced(line, dependencies[0].0, dependencies[0].1),
            dependencies.drop_first(),
        )
    }
}

/// A line with every machine-specific path replaced by its placeholder.
///
/// The order is part of the meaning. The scratch source path ends in the bin's
/// relative path and the scratch root is a prefix of it, so it comes first. The
/// scratch root usually lies inside the host crate, so the manifest directory
/// comes late. Dependencies come last and only claim what is left.
pub open spec fn paths_rewritten(rules: Rules, line: Seq<char>, fixture: Seq<char>) -> Seq<char> {
    let l1 = dir_replaced(line, rules.scratch_absolute, fixture);
    let l2 = dir_replaced(l1, rules.scratch_root, SCRATCH@);
    let l3 = replace(l2, rules.scratch_relative, fixture);
    let l4 = replace(l3, rules.bin, CRATE@);
    let l5 = sysroot_replaced(l4);
    let l6 = match rules.cargo_home {
        Some(home) => dir_replaced(registry_replaced(l5, home), home, CARGO_HOME@),
        None => l5,
    };
    dependencies_replaced(dir_replaced(l6, rules.manifest_dir, DIR@), rules.dependencies)
}

/// One line, rewritten, and whether the line after it may still belong to a
/// snippet that is not the fixture's. `foreign` is that for this line.
#[verifier::opaque]
pub open spec fn line_normalized(
    rules: Rules,
    fixture: Seq<char>,
    line: Seq<char>,
    foreign: bool,
) -> (Seq<char>, bool) {
    let bare = trim_end(line);
    let still = foreign && in_snippet(bare);
    let blanked = if still {
        number_blanked(bare)
    } else {
        bare
    };
    let rewritten = count_hidden(paths_rewritten(rules, blanked, fixture));
    match target_of(rewritten) {
        Some(target) => if is_into(target, fixture) {
            (rewritten, false)
        } else {
            (without_numbers(rewritten), true)
        },
        None => (rewritten, still),
    }
}

/// The lines, each rewritten in the state the ones before it left.
pub open spec fn lines_normalized(
    rules: Rules,
    fixture: Seq<char>,
    lines: Seq<Seq<char>>,
    foreign: bool,
) -> Seq<Seq<char>>
    decreases lines.len(),
{
    if lines.len() == 0 {
        seq![]
    } else {
        let (line, next) = line_normalized(rules, fixture, lines[0], foreign);
        seq![line] + lines_normalized(rules, fixture, lines.drop_first(), next)
    }
}

/// The text with exactly one line feed at its end, or empty.
pub open spec fn finished(text: Seq<char>) -> Seq<char>
    decreases text.len(),
{
    if text.len() == 0 {
        text
    } else if text.last() == '\n' {
        finished(text.drop_last())
    } else {
        text.push('\n')
    }
}

/// `text` as it reads on any machine.
#[verifier::opaque]
pub open spec fn normalized(rules: Rules, text: Seq<char>, fixture: Seq<char>) -> Seq<char> {
    finished(
        join(realign(truncated(lines_normalized(rules, fixture, lines(text), false))), "\n"@),
    )
}

/// The path a span header points at, if this line is one.
pub fn span_target(line: &[char]) -> (r: Option<&[char]>)
    ensures
        match r {
            Some(target) => target_of(line@) == Some(target@),
            None => target_of(line@) is None,
        },
{
    proof {
        reveal_strlit("--> ");
        reveal_strlit("::: ");
    }
    let body = trimmed_start(line);
    if has_prefix(body, "--> ") || has_prefix(body, "::: ") {
        Some(after(body, 4))
    } else {
        None
    }
}

/// Whether a span target names the fixture rather than some other file.
pub fn points_into(target: &[char], fixture: &[char]) -> (r: bool)
    ensures
        r == is_into(target@, fixture@),
{
    if !stands_at(target, fixture, 0) {
        return false;
    }
    let rest = after(target, fixture.len());
    rest.len() == 0 || rest[0] == ':'
}

fn drop_number(line: Vec<char>) -> (r: Vec<char>)
    ensures
        r@ == without_number(line@),
{
    let digits: usize = count_trailing(line.as_slice(), Class::Digit);
    if digits > 0 && digits < line.len() && line[line.len() - digits - 1] == ':' {
        copy_of(before(line.as_slice(), line.len() - digits - 1))
    } else {
        line
    }
}

/// `a.rs:22:29` becomes `a.rs`, dropping at most a line and a column.
pub fn hide_trailing_numbers(line: Vec<char>) -> (r: Vec<char>)
    ensures
        r@ == without_numbers(line@),
{
    drop_number(drop_number(line))
}

/// Overwrite a snippet row's line number with spaces, keeping the gutter width
/// so the `|` column and the carets beneath it stay aligned.
pub fn blank_leading_number(line: &[char]) -> (r: Vec<char>)
    ensures
        r@ == number_blanked(line@),
{
    let margin: usize = count_leading(line, Class::Margin);
    let mut out: Vec<char> = Vec::new();
    let mut i: usize = 0;
    while i < margin
        invariant
            i <= margin,
            out@ =~= Seq::new(i as nat, |k: int| ' '),
        decreases margin - i,
    {
        out.push(' ');
        i += 1;
    }
    push_chars(&mut out, after(line, margin));
    assert(out@ =~= number_blanked(line@));
    out
}

/// Whether a line belongs to the snippet under a span header.
pub fn is_snippet_row(line: &[char]) -> (r: bool)
    ensures
        r == in_snippet(line@),
{
    let body = trimmed_start(line);
    body.len() > 0 && (Class::Digit.contains(body[0]) || body[0] == '|' || body[0] == '.')
}

/// `CARGO_HOME` if it is set, and `~/.cargo` by convention.
pub open spec fn home_of(variable: Option<Seq<char>>, home: Option<Seq<char>>) -> Option<Seq<char>> {
    match variable {
        Some(dir) => Some(dir),
        None => match home {
            Some(dir) => Some(crate::path::path_join(dir, ".cargo"@)),
            None => None,
        },
    }
}

/// `CARGO_HOME` if set, else the conventional `~/.cargo`.
pub fn cargo_home(variable: Option<String>, home: Option<String>) -> (r: Option<String>)
    ensures
        optional(r) == home_of(optional(variable), optional(home)),
{
    match variable {
        Some(dir) => Some(dir),
        None => match home {
            Some(dir) => Some(join_path(dir.as_str(), ".cargo")),
            None => None,
        },
    }
}

impl Normalizer {
    /// The rewrites for the fixture compiled as `bin` from `scratch_absolute`.
    pub fn new(
        scratch_root: &str,
        scratch_absolute: &str,
        bin: &str,
        manifest_dir: &str,
        dependencies: &[Dependency],
        cargo_home: Option<String>,
    ) -> (r: Self)
        ensures
            r@ == (Rules {
                scratch_absolute: scratch_absolute@,
                scratch_relative: bin_source(bin@),
                bin: bin@,
                scratch_root: scratch_root@,
                manifest_dir: manifest_dir@,
                cargo_home: optional(cargo_home),
                dependencies: longest_first(declared(dependencies@)),
            }),
    {
        let mut sorted: Vec<(String, String)> = Vec::new();
        let ghost all = declared(dependencies@);
        let mut i: usize = 0;
        assert(all.take(0) =~= seq![]);
        assert(pairs(sorted@) =~= longest_first(all.take(0)));
        while i < dependencies.len()
            invariant
                i <= dependencies@.len(),
                all == declared(dependencies@),
                pairs(sorted@) == longest_first(all.take(i as int)),
            decreases dependencies@.len() - i,
        {
            assert(all.take(i + 1).drop_last() =~= all.take(i as int));
            assert(all.take(i + 1).last() == dependencies@[i as int]@);
            let path = dependencies[i].path.clone();
            let name = placeholder(dependencies[i].name.as_str());
            insert_pair(&mut sorted, (path, name));
            i += 1;
        }
        assert(all.take(i as int) =~= all);
        Normalizer {
            scratch_absolute: scratch_absolute.to_owned(),
            scratch_relative: bin_relative(bin),
            bin: bin.to_owned(),
            scratch_root: scratch_root.to_owned(),
            manifest_dir: manifest_dir.to_owned(),
            cargo_home,
            dependencies: sorted,
        }
    }

    /// Replace every machine-specific path in one line with its placeholder.
    pub fn rewrite_paths(&self, line: &[char], fixture: &[char]) -> (r: Vec<char>)
        ensures
            r@ == paths_rewritten(self@, line@, fixture@),
    {
        let from = chars_of(self.scratch_absolute.as_str());
        let line = with_dir_replaced(line, from.as_slice(), fixture);
        let from = chars_of(self.scratch_root.as_str());
        let to = chars_of(SCRATCH);
        let line = with_dir_replaced(line.as_slice(), from.as_slice(), to.as_slice());
        // Replaced everywhere it occurs rather than only in a span header, because
        // rustc also names the file in prose. Safe to do globally because the name
        // carries a hash of the fixture's path.
        let from = chars_of(self.scratch_relative.as_str());
        let line = replaced(line.as_slice(), from.as_slice(), fixture);
        // The bin name is also the crate name, and rustc prints it for a
        // diagnostic about the crate rather than a span in it.
        let from = chars_of(self.bin.as_str());
        let to = chars_of(CRATE);
        let line = replaced(line.as_slice(), from.as_slice(), to.as_slice());
        let line = replace_sysroot(line.as_slice());
        let line = match &self.cargo_home {
            Some(home) => {
                let home = chars_of(home.as_str());
                let line = replace_registry_src(line.as_slice(), home.as_slice());
                let to = chars_of(CARGO_HOME);
                with_dir_replaced(line.as_slice(), home.as_slice(), to.as_slice())
            },
            None => line,
        };
        let from = chars_of(self.manifest_dir.as_str());
        let to = chars_of(DIR);
        let mut line = with_dir_replaced(line.as_slice(), from.as_slice(), to.as_slice());
        let ghost all = pairs(self.dependencies@);
        let ghost start = line@;
        let mut i: usize = 0;
        assert(all.skip(0) =~= all);
        while i < self.dependencies.len()
            invariant
                i <= self.dependencies@.len(),
                all == pairs(self.dependencies@),
                dependencies_replaced(line@, all.skip(i as int)) == dependencies_replaced(
                    start,
                    all,
                ),
            decreases self.dependencies@.len() - i,
        {
            assert(all.skip(i as int)[0] == (
                self.dependencies@[i as int].0@,
                self.dependencies@[i as int].1@,
            ));
            assert(all.skip(i as int).drop_first() =~= all.skip(i + 1));
            let from = chars_of(self.dependencies[i].0.as_str());
            let to = chars_of(self.dependencies[i].1.as_str());
            line = with_dir_replaced(line.as_slice(), from.as_slice(), to.as_slice());
            i += 1;
        }
        line
    }

    /// Rewrite one line, and say whether the next may still belong to a snippet
    /// that is not the fixture's.
    fn normalize_line(&self, line: &[char], fixture: &[char], foreign: bool) -> (r: (
        Vec<char>,
        bool,
    ))
        ensures
            (r.0@, r.1) == line_normalized(self@, fixture@, line@, foreign),
    {
        proof {
            reveal(line_normalized);
        }
        let bare = trimmed_end(line);
        let still: bool = foreign && is_snippet_row(bare);
        let blanked = if still {
            blank_leading_number(bare)
        } else {
            copy_of(bare)
        };
        let rewritten = self.rewrite_paths(blanked.as_slice(), fixture);
        let rewritten = hide_other_count(rewritten.as_slice());
        // Done after rewriting, so the comparison is against the fixture's
        // normalized path rather than the scratch project's.
        let into: Option<bool> = match span_target(rewritten.as_slice()) {
            Some(target) => Some(points_into(target, fixture)),
            None => None,
        };
        match into {
            Some(true) => (rewritten, false),
            Some(false) => (hide_trailing_numbers(rewritten), true),
            None => (rewritten, still),
        }
    }

    /// Rewrite `text` so it says the same thing on any machine.
    ///
    /// `fixture` is the fixture's path relative to the host manifest directory:
    /// the scratch project's copy of the fixture is rewritten to it.
    pub fn normalize(&self, text: &str, fixture: &str) -> (r: String)
        ensures
            r@ == normalized(self@, text@, fixture@),
            r@.len() > 0 ==> r@.last() == '\n',
            r@.len() > 1 ==> r@[r@.len() - 2] != '\n',
            r@ != seq!['\n'],
    {
        proof {
            reveal(normalized);
        }
        let text = chars_of(text);
        let fixture = chars_of(fixture);
        let raw = split_lines(text.as_slice());
        let ghost all = texts(raw@);
        let mut out: Vec<Vec<char>> = Vec::new();
        // Whether the rows still arriving belong to the snippet under a span that
        // pointed outside the fixture.
        let mut foreign: bool = false;
        let mut i: usize = 0;
        assert(all.skip(0) =~= all);
        assert(texts(out@) =~= seq![]);
        while i < raw.len()
            invariant
                i <= raw@.len(),
                all == texts(raw@),
                texts(out@) + lines_normalized(self@, fixture@, all.skip(i as int), foreign)
                    =~= lines_normalized(self@, fixture@, all, false),
            decreases raw@.len() - i,
        {
            assert(all.skip(i as int)[0] == raw@[i as int]@);
            assert(all.skip(i as int).drop_first() =~= all.skip(i + 1));
            let ghost done = texts(out@);
            let (line, next) = self.normalize_line(
                raw[i].as_slice(),
                fixture.as_slice(),
                foreign,
            );
            foreign = next;
            out.push(line);
            assert(texts(out@) =~= done.push(line@));
            i += 1;
        }
        // Before the gutters are re-aligned, so that the alignment sees the lines
        // the golden will actually hold.
        let out = truncate_implementor_lists(&out);
        // Last, because it is the blanking above that frees the width it reclaims.
        let out = realign_gutters(&out);
        let mut whole = joined(&out, "\n");
        let ghost before_trim = whole@;
        while whole.len() > 0 && whole[whole.len() - 1] == '\n'
            invariant
                finished(whole@) == finished(before_trim),
            decreases whole@.len(),
        {
            let ghost old_whole = whole@;
            whole.pop();
            assert(whole@ =~= old_whole.drop_last());
        }
        if whole.len() > 0 {
            whole.push('\n');
        }
        string_of(whole.as_slice())
    }
}

// ---------------------------------------------------------------------------
// What normalizing promises.
// ---------------------------------------------------------------------------

proof fn lemma_without_number(front: Seq<char>, number: Seq<char>)
    requires
        number.len() > 0,
        forall|i: int| 0 <= i < number.len() ==> is_digit(number[i]),
    ensures
        without_number(front + seq![':'] + number) == front,
{
    let line = front + seq![':'] + number;
    assert forall|i: int| line.len() - number.len() <= i < line.len() implies Class::Digit.has(
        line[i],
    ) by {
        assert(line[i] == number[i - front.len() - 1]);
    }
    assert(line[line.len() - number.len() - 1] == ':');
    lemma_trailing_is(line, Class::Digit, number.len());
    assert(line.take(line.len() - number.len() - 1) =~= front);
}

/// Where in another file a span points makes no difference: the line and the column
/// both go, whatever they are, and the path stays whole.
pub proof fn law_foreign_positions_make_no_difference(
    path: Seq<char>,
    line: Seq<char>,
    column: Seq<char>,
)
    requires
        line.len() > 0,
        column.len() > 0,
        forall|i: int| 0 <= i < line.len() ==> is_digit(line[i]),
        forall|i: int| 0 <= i < column.len() ==> is_digit(column[i]),
    ensures
        without_numbers(path + seq![':'] + line + seq![':'] + column) == path,
{
    lemma_without_number(path + seq![':'] + line, column);
    lemma_without_number(path, line);
}

/// A line as it is rewritten before its position is looked at, in the state the lines
/// before it left.
pub open spec fn rewritten(
    rules: Rules,
    fixture: Seq<char>,
    line: Seq<char>,
    foreign: bool,
) -> Seq<char> {
    let bare = trim_end(line);
    count_hidden(
        paths_rewritten(
            rules,
            if foreign && in_snippet(bare) {
                number_blanked(bare)
            } else {
                bare
            },
            fixture,
        ),
    )
}

/// Of a span header only the fixture's own keeps its position. One that points anywhere
/// else says the path alone, and the rows beneath it are another file's.
pub proof fn law_only_the_fixtures_own_spans_keep_their_position(
    rules: Rules,
    fixture: Seq<char>,
    header: Seq<char>,
    foreign: bool,
    path: Seq<char>,
    line: Seq<char>,
    column: Seq<char>,
)
    requires
        rewritten(rules, fixture, header, foreign) == path + seq![':'] + line + seq![':'] + column,
        target_of(rewritten(rules, fixture, header, foreign)) is Some,
        line.len() > 0,
        column.len() > 0,
        forall|i: int| 0 <= i < line.len() ==> is_digit(line[i]),
        forall|i: int| 0 <= i < column.len() ==> is_digit(column[i]),
    ensures
        ({
            let whole = rewritten(rules, fixture, header, foreign);
            line_normalized(rules, fixture, header, foreign) == if is_into(
                target_of(whole)->0,
                fixture,
            ) {
                (whole, false)
            } else {
                (path, true)
            }
        }),
{
    reveal(line_normalized);
    law_foreign_positions_make_no_difference(path, line, column);
}

/// What the number of a row in another file's snippet is makes no difference: the
/// number goes, and the row keeps its place.
pub proof fn law_foreign_line_numbers_make_no_difference(
    margin: Seq<char>,
    other: Seq<char>,
    rest: Seq<char>,
)
    requires
        margin.len() == other.len(),
        forall|i: int| 0 <= i < margin.len() ==> Class::Margin.has(margin[i]),
        forall|i: int| 0 <= i < other.len() ==> Class::Margin.has(other[i]),
        rest.len() > 0 ==> !Class::Margin.has(rest[0]),
    ensures
        number_blanked(margin + rest) == number_blanked(other + rest),
        number_blanked(margin + rest).len() == (margin + rest).len(),
{
    let a = margin + rest;
    let b = other + rest;
    assert forall|i: int| 0 <= i < margin.len() implies Class::Margin.has(a[i]) by {
        assert(a[i] == margin[i]);
    }
    assert forall|i: int| 0 <= i < other.len() implies Class::Margin.has(b[i]) by {
        assert(b[i] == other[i]);
    }
    lemma_leading_is(a, Class::Margin, margin.len());
    lemma_leading_is(b, Class::Margin, other.len());
    assert(a.skip(margin.len() as int) =~= rest);
    assert(b.skip(other.len() as int) =~= rest);
}

/// White space at the end of a line makes no difference.
pub proof fn law_trailing_space_makes_no_difference(
    rules: Rules,
    fixture: Seq<char>,
    a: Seq<Seq<char>>,
    b: Seq<Seq<char>>,
    foreign: bool,
)
    requires
        a.len() == b.len(),
        forall|i: int| 0 <= i < a.len() ==> trim_end(#[trigger] a[i]) == trim_end(b[i]),
    ensures
        lines_normalized(rules, fixture, a, foreign) == lines_normalized(rules, fixture, b, foreign),
    decreases a.len(),
{
    reveal(line_normalized);
    if a.len() > 0 {
        let a1 = a.drop_first();
        let b1 = b.drop_first();
        let next = line_normalized(rules, fixture, a[0], foreign).1;
        assert(trim_end(a[0]) == trim_end(b[0]));
        assert forall|i: int| 0 <= i < a1.len() implies trim_end(#[trigger] a1[i]) == trim_end(
            b1[i],
        ) by {
            assert(a1[i] == a[i + 1]);
            assert(b1[i] == b[i + 1]);
        }
        law_trailing_space_makes_no_difference(rules, fixture, a1, b1, next);
    }
}

/// The text with a carriage return before every line feed.
pub open spec fn with_returns(text: Seq<char>) -> Seq<char>
    decreases text.len(),
{
    if text.len() == 0 {
        seq![]
    } else {
        (if text[0] == '\n' {
            seq!['\r', '\n']
        } else {
            seq![text[0]]
        }) + with_returns(text.drop_first())
    }
}

/// Up to its first line feed a text is the same with carriage returns.
proof fn lemma_with_returns(text: Seq<char>)
    ensures
        ({
            let end = leading(text, Class::LineBody) as int;
            with_returns(text) == (if end >= text.len() {
                text
            } else {
                text.take(end) + seq!['\r', '\n'] + with_returns(text.skip(end + 1))
            })
        }),
    decreases text.len(),
{
    let end = leading(text, Class::LineBody) as int;
    lemma_leading(text, Class::LineBody);
    if text.len() == 0 {
        assert(with_returns(text) =~= text);
    } else if text[0] == '\n' {
        assert(text.drop_first() =~= text.skip(1));
        assert(with_returns(text) =~= text.take(0) + seq!['\r', '\n'] + with_returns(text.skip(1)));
    } else {
        let rest = text.drop_first();
        lemma_with_returns(rest);
        if end >= text.len() {
            assert(with_returns(text) =~= text);
        } else {
            assert(rest.skip(end) =~= text.skip(end + 1));
            assert(with_returns(text) =~= text.take(end) + seq!['\r', '\n'] + with_returns(
                text.skip(end + 1),
            ));
        }
    }
}

proof fn lemma_trim_end_chomp(line: Seq<char>)
    ensures
        trim_end(chomp(line)) == trim_end(line),
{
    if line.len() > 0 && line.last() == '\r' {
        let short = line.drop_last();
        lemma_trailing(short, Class::Whitespace);
        lemma_trailing(line, Class::Whitespace);
        assert(is_whitespace('\r'));
        assert(trailing(line, Class::Whitespace) == trailing(short, Class::Whitespace) + 1);
        assert(trim_end(line) =~= trim_end(short));
    }
}

/// With carriage returns there are as many lines, and they differ in nothing but what
/// they end with.
proof fn lemma_lines_with_returns(text: Seq<char>)
    ensures
        lines(with_returns(text)).len() == lines(text).len(),
        forall|i: int|
            0 <= i < lines(text).len() ==> trim_end(#[trigger] lines(with_returns(text))[i])
                == trim_end(lines(text)[i]),
    decreases text.len(),
{
    let end = leading(text, Class::LineBody) as int;
    lemma_leading(text, Class::LineBody);
    lemma_with_returns(text);
    if text.len() > 0 && end < text.len() {
        let rest = text.skip(end + 1);
        let whole = with_returns(text);
        lemma_lines_with_returns(rest);
        assert forall|i: int| 0 <= i < end + 1 implies Class::LineBody.has(whole[i]) by {
            if i < end {
                assert(whole[i] == text[i]);
            }
        }
        assert(whole[end + 1] == '\n');
        lemma_leading_is(whole, Class::LineBody, (end + 1) as nat);
        assert(whole.take(end + 1).drop_last() =~= text.take(end));
        assert(whole.skip(end + 2) =~= with_returns(rest));
        let a = lines(whole);
        let b = lines(text);
        assert(a =~= seq![text.take(end)] + lines(with_returns(rest)));
        assert(b =~= seq![chomp(text.take(end))] + lines(rest));
        lemma_trim_end_chomp(text.take(end));
        assert forall|i: int| 0 <= i < b.len() implies trim_end(#[trigger] a[i]) == trim_end(
            b[i],
        ) by {
            if i > 0 {
                assert(a[i] == lines(with_returns(rest))[i - 1]);
                assert(b[i] == lines(rest)[i - 1]);
            }
        }
    }
}

/// Whether lines end in a line feed or in a carriage return and a line feed makes no
/// difference.
pub proof fn law_carriage_returns_make_no_difference(
    rules: Rules,
    text: Seq<char>,
    fixture: Seq<char>,
)
    ensures
        normalized(rules, with_returns(text), fixture) == normalized(rules, text, fixture),
{
    reveal(normalized);
    lemma_lines_with_returns(text);
    law_trailing_space_makes_no_difference(
        rules,
        fixture,
        lines(with_returns(text)),
        lines(text),
        false,
    );
}

/// Whether no path in a list is longer than one before it.
pub open spec fn shrinking(list: Seq<(Seq<char>, Seq<char>)>) -> bool {
    forall|i: int, j: int|
        0 <= i < j < list.len() ==> byte_len(#[trigger] list[i].0) >= byte_len(
            #[trigger] list[j].0,
        )
}

proof fn lemma_insert_by_length(list: Seq<(Seq<char>, Seq<char>)>, pair: (Seq<char>, Seq<char>))
    requires
        shrinking(list),
    ensures
        shrinking(insert_by_length(list, pair)),
        insert_by_length(list, pair).to_multiset() == list.to_multiset().insert(pair),
        insert_by_length(list, pair).len() == list.len() + 1,
        forall|i: int|
            0 <= i <= list.len() ==> byte_len(#[trigger] insert_by_length(list, pair)[i].0)
                >= byte_len(pair.0) || (list.len() > 0 && byte_len(
                insert_by_length(list, pair)[i].0,
            ) >= byte_len(list.last().0)),
    decreases list.len(),
{
    broadcast use vstd::seq_lib::group_to_multiset_ensures;
    let out = insert_by_length(list, pair);
    if list.len() == 0 || byte_len(list.last().0) >= byte_len(pair.0) {
        assert forall|i: int, j: int| 0 <= i < j < out.len() implies byte_len(
            #[trigger] out[i].0,
        ) >= byte_len(#[trigger] out[j].0) by {
            assert(out[i] == list[i]);
            if j < list.len() {
                assert(out[j] == list[j]);
            } else if i < list.len() - 1 {
                assert(byte_len(list[i].0) >= byte_len(list[list.len() - 1].0));
            }
        }
        assert forall|i: int| 0 <= i <= list.len() implies byte_len(#[trigger] out[i].0)
            >= byte_len(pair.0) || (list.len() > 0 && byte_len(out[i].0) >= byte_len(
            list.last().0,
        )) by {
            if i < list.len() {
                assert(out[i] == list[i]);
                if i < list.len() - 1 {
                    assert(byte_len(list[i].0) >= byte_len(list[list.len() - 1].0));
                }
            }
        }
    } else {
        let rest = list.drop_last();
        let inner = insert_by_length(rest, pair);
        assert forall|i: int, j: int| 0 <= i < j < rest.len() implies byte_len(
            #[trigger] rest[i].0,
        ) >= byte_len(#[trigger] rest[j].0) by {
            assert(rest[i] == list[i]);
            assert(rest[j] == list[j]);
        }
        lemma_insert_by_length(rest, pair);
        assert(rest.push(list.last()) =~= list);
        assert forall|i: int| 0 <= i < inner.len() implies byte_len(#[trigger] inner[i].0)
            >= byte_len(list.last().0) by {
            if rest.len() > 0 {
                assert(byte_len(list[list.len() - 2].0) >= byte_len(list[list.len() - 1].0));
                assert(rest.last() == list[list.len() - 2]);
            }
        }
        assert forall|i: int, j: int| 0 <= i < j < out.len() implies byte_len(
            #[trigger] out[i].0,
        ) >= byte_len(#[trigger] out[j].0) by {
            assert(out[i] == inner[i]);
            if j < inner.len() {
                assert(out[j] == inner[j]);
            }
        }
        assert forall|i: int| 0 <= i <= list.len() implies byte_len(#[trigger] out[i].0)
            >= byte_len(pair.0) || (list.len() > 0 && byte_len(out[i].0) >= byte_len(
            list.last().0,
        )) by {
            if i < inner.len() {
                assert(out[i] == inner[i]);
            }
        }
        assert(out.to_multiset() =~= list.to_multiset().insert(pair));
    }
}

/// Each declared dependency's path and placeholder.
pub open spec fn placeholders(deps: Seq<(Seq<char>, Seq<char>)>) -> Seq<(Seq<char>, Seq<char>)> {
    deps.map_values(|d: (Seq<char>, Seq<char>)| (d.1, placeholder_of(d.0)))
}

/// Every declared dependency has its rewrite, and the longest path comes first, so a
/// dependency nested inside another claims its own paths before the outer one can.
pub proof fn law_the_longest_dependency_comes_first(deps: Seq<(Seq<char>, Seq<char>)>)
    ensures
        shrinking(longest_first(deps)),
        longest_first(deps).to_multiset() == placeholders(deps).to_multiset(),
    decreases deps.len(),
{
    broadcast use vstd::seq_lib::group_to_multiset_ensures;
    if deps.len() == 0 {
        assert(placeholders(deps) =~= seq![]);
    } else {
        let rest = deps.drop_last();
        let pair = (deps.last().1, placeholder_of(deps.last().0));
        law_the_longest_dependency_comes_first(rest);
        lemma_insert_by_length(longest_first(rest), pair);
        assert(placeholders(deps) =~= placeholders(rest).push(pair));
    }
}

proof fn lemma_finished_ends_once(text: Seq<char>)
    ensures
        ({
            let out = finished(text);
            out.len() > 0 ==> {
                &&& out.len() > 1
                &&& out.last() == '\n'
                &&& out[out.len() - 2] != '\n'
            }
        }),
    decreases text.len(),
{
    if text.len() > 0 && text.last() == '\n' {
        lemma_finished_ends_once(text.drop_last());
    }
}

/// What was normalized says nothing at all, or ends in exactly one line feed.
pub proof fn law_normalized_text_ends_in_one_line_feed(
    rules: Rules,
    text: Seq<char>,
    fixture: Seq<char>,
)
    ensures
        ({
            let out = normalized(rules, text, fixture);
            out.len() > 0 ==> {
                &&& out.len() > 1
                &&& out.last() == '\n'
                &&& out[out.len() - 2] != '\n'
            }
        }),
{
    reveal(normalized);
    lemma_finished_ends_once(
        join(realign(truncated(lines_normalized(rules, fixture, lines(text), false))), "\n"@),
    );
}

/// Whether a line names nothing of the scratch project.
pub open spec fn free_of_scratch(rules: Rules, line: Seq<char>) -> bool {
    &&& !has_text(line, rules.scratch_absolute)
    &&& !has_text(line, rules.scratch_root)
    &&& !has_text(line, rules.scratch_relative)
    &&& !has_text(line, rules.bin)
}

/// Whether a line names nothing of a toolchain or of cargo's home.
pub open spec fn free_of_tools(rules: Rules, line: Seq<char>) -> bool {
    &&& !has_text(line, LIBRARY_MARKER@)
    &&& !has_text(line, OLDER_MARKER@)
    &&& !has_text(line, "/rustc/"@)
    &&& (rules.cargo_home matches Some(home) ==> !has_text(line, registry_prefix(home))
        && !has_text(line, home))
}

/// Whether a line names none of these dependencies.
pub open spec fn free_of(line: Seq<char>, dependencies: Seq<(Seq<char>, Seq<char>)>) -> bool {
    forall|i: int|
        0 <= i < dependencies.len() ==> !has_text(line, (#[trigger] dependencies[i]).0)
}

proof fn lemma_dir_absent(line: Seq<char>, from: Seq<char>, to: Seq<char>)
    requires
        !has_text(line, from),
    ensures
        dir_replaced(line, from, to) == line,
{
    law_part_of_a_name_is_left_alone(line, from, to);
}

proof fn lemma_tools_absent(rules: Rules, line: Seq<char>)
    requires
        free_of_tools(rules, line),
    ensures
        sysroot_replaced(line) == line,
        rules.cargo_home matches Some(home) ==> dir_replaced(
            registry_replaced(line, home),
            home,
            CARGO_HOME@,
        ) == line,
{
    reveal_strlit("$RUST");
    reveal_strlit("/lib/rustlib/src/rust/library/");
    reveal_strlit("/lib/rustlib/src/rust/src/");
    lemma_absent(line, LIBRARY_MARKER@, 0);
    lemma_absent(line, OLDER_MARKER@, 0);
    lemma_absent(line, "/rustc/"@, 0);
    assert(line.skip(0) =~= line);
    if let Some(home) = rules.cargo_home {
        lemma_absent(line, registry_prefix(home), 0);
        lemma_dir_absent(line, home, CARGO_HOME@);
    }
}

proof fn lemma_scratch_absent(rules: Rules, line: Seq<char>, fixture: Seq<char>)
    requires
        free_of_scratch(rules, line),
    ensures
        dir_replaced(line, rules.scratch_absolute, fixture) == line,
        dir_replaced(line, rules.scratch_root, SCRATCH@) == line,
        replace(line, rules.scratch_relative, fixture) == line,
        replace(line, rules.bin, CRATE@) == line,
{
    lemma_dir_absent(line, rules.scratch_absolute, fixture);
    lemma_dir_absent(line, rules.scratch_root, SCRATCH@);
    lemma_replace_absent(line, rules.scratch_relative, fixture);
    lemma_replace_absent(line, rules.bin, CRATE@);
}

proof fn lemma_dependencies_absent(line: Seq<char>, dependencies: Seq<(Seq<char>, Seq<char>)>)
    requires
        free_of(line, dependencies),
    ensures
        dependencies_replaced(line, dependencies) == line,
    decreases dependencies.len(),
{
    if dependencies.len() > 0 {
        let rest = dependencies.drop_first();
        assert(!has_text(line, dependencies[0].0));
        lemma_dir_absent(line, dependencies[0].0, dependencies[0].1);
        assert forall|i: int| 0 <= i < rest.len() implies !has_text(
            line,
            (#[trigger] rest[i]).0,
        ) by {
            assert(rest[i] == dependencies[i + 1]);
        }
        lemma_dependencies_absent(line, rest);
    }
}

/// Whether a character is one of those that rustc draws an elided line with.
pub open spec fn is_mark(c: char) -> bool {
    c == '.' || c == ' ' || c == '|'
}

/// Whether a line holds nothing but such characters.
pub open spec fn is_drawn(line: Seq<char>) -> bool {
    forall|i: int| 0 <= i < line.len() ==> is_mark(line[i])
}

/// Whether a text holds something else, as every path does.
pub open spec fn is_named(pat: Seq<char>) -> bool {
    exists|i: int| 0 <= i < pat.len() && !is_mark(pat[i])
}

/// Whether every place that a run knows is named so.
pub open spec fn all_named(rules: Rules) -> bool {
    &&& rules.scratch_absolute.len() > 0 ==> is_named(rules.scratch_absolute)
    &&& rules.scratch_root.len() > 0 ==> is_named(rules.scratch_root)
    &&& is_named(rules.scratch_relative)
    &&& is_named(rules.bin)
    &&& rules.manifest_dir.len() > 0 ==> is_named(rules.manifest_dir)
    &&& (rules.cargo_home matches Some(home) ==> (home.len() > 0 ==> is_named(home)))
    &&& forall|i: int|
        0 <= i < rules.dependencies.len() ==> (#[trigger] rules.dependencies[i]).0.len() > 0
            ==> is_named(rules.dependencies[i].0)
}

proof fn lemma_drawn(line: Seq<char>, pat: Seq<char>)
    requires
        is_drawn(line),
        is_named(pat),
    ensures
        !has_text(line, pat),
{
    let i = choose|i: int| 0 <= i < pat.len() && !is_mark(pat[i]);
    assert forall|k: int| !occurs_at(line, pat, k) by {
        if occurs_at(line, pat, k) {
            assert(line.subrange(k, k + pat.len())[i] == line[k + i]);
        }
    }
}

proof fn lemma_dir_in_drawn(line: Seq<char>, from: Seq<char>, to: Seq<char>)
    requires
        is_drawn(line),
        from.len() > 0 ==> is_named(from),
    ensures
        dir_replaced(line, from, to) == line,
{
    if from.len() > 0 {
        lemma_drawn(line, from);
        lemma_dir_absent(line, from, to);
    }
}

proof fn lemma_dependencies_in_drawn(
    line: Seq<char>,
    dependencies: Seq<(Seq<char>, Seq<char>)>,
)
    requires
        is_drawn(line),
        forall|i: int|
            0 <= i < dependencies.len() ==> (#[trigger] dependencies[i]).0.len() > 0
                ==> is_named(dependencies[i].0),
    ensures
        dependencies_replaced(line, dependencies) == line,
    decreases dependencies.len(),
{
    if dependencies.len() > 0 {
        let rest = dependencies.drop_first();
        lemma_dir_in_drawn(line, dependencies[0].0, dependencies[0].1);
        assert forall|i: int| 0 <= i < rest.len() && (#[trigger] rest[i]).0.len() > 0 implies
            is_named(rest[i].0) by {
            assert(rest[i] == dependencies[i + 1]);
        }
        lemma_dependencies_in_drawn(line, rest);
    }
}

/// A line of such characters names no place.
pub proof fn lemma_drawn_stays(rules: Rules, line: Seq<char>, fixture: Seq<char>)
    requires
        is_drawn(line),
        all_named(rules),
    ensures
        paths_rewritten(rules, line, fixture) == line,
{
    lemma_dir_in_drawn(line, rules.scratch_absolute, fixture);
    lemma_dir_in_drawn(line, rules.scratch_root, SCRATCH@);
    lemma_drawn(line, rules.scratch_relative);
    lemma_replace_absent(line, rules.scratch_relative, fixture);
    lemma_drawn(line, rules.bin);
    lemma_replace_absent(line, rules.bin, CRATE@);
    assert(sysroot_replaced(line) == line) by {
        reveal_strlit("/rustc/");
        reveal_strlit("/lib/rustlib/src/rust/library/");
        reveal_strlit("/lib/rustlib/src/rust/src/");
        assert(!is_mark("/rustc/"@[0]));
        assert(!is_mark(LIBRARY_MARKER@[0]));
        assert(!is_mark(OLDER_MARKER@[0]));
        lemma_drawn(line, "/rustc/"@);
        lemma_drawn(line, LIBRARY_MARKER@);
        lemma_drawn(line, OLDER_MARKER@);
        lemma_tools_absent(Rules { cargo_home: None, ..rules }, line);
    }
    if let Some(home) = rules.cargo_home {
        reveal_strlit("/registry/src/");
        let prefix = registry_prefix(home);
        assert(prefix.last() == '/');
        assert(!is_mark(prefix[prefix.len() - 1]));
        lemma_drawn(line, prefix);
        lemma_absent(line, prefix, 0);
        assert(line.skip(0) =~= line);
        lemma_dir_in_drawn(line, home, CARGO_HOME@);
    }
    lemma_dir_in_drawn(line, rules.manifest_dir, DIR@);
    lemma_dependencies_in_drawn(line, rules.dependencies);
}

/// A line that names no place of this machine reads as it is.
pub proof fn law_a_line_that_names_no_place_stays(
    rules: Rules,
    line: Seq<char>,
    fixture: Seq<char>,
)
    requires
        free_of_scratch(rules, line),
        free_of_tools(rules, line),
        !has_text(line, rules.manifest_dir),
        free_of(line, rules.dependencies),
    ensures
        paths_rewritten(rules, line, fixture) == line,
{
    lemma_scratch_absent(rules, line, fixture);
    lemma_tools_absent(rules, line);
    lemma_dir_absent(line, rules.manifest_dir, DIR@);
    lemma_dependencies_absent(line, rules.dependencies);
}

/// A line that names a place in the host crate says `$DIR` for where that is, and is
/// otherwise the same on every machine. That holds too of a dependency inside the host
/// crate, whose path is gone with the crate's.
pub proof fn law_where_the_host_crate_is_makes_no_difference(
    rules: Rules,
    front: Seq<char>,
    back: Seq<char>,
    fixture: Seq<char>,
)
    requires
        may_start(char_at(front, front.len() - 1)),
        may_end(char_at(back, 0)),
        rules.manifest_dir.len() > 0,
        ({
            let line = front + rules.manifest_dir + back;
            &&& forall|k: int| #[trigger]
                occurs_at(line, rules.manifest_dir, k) ==> k == front.len()
            &&& free_of_scratch(rules, line)
            &&& free_of_tools(rules, line)
        }),
        free_of(front + DIR@ + back, rules.dependencies),
    ensures
        paths_rewritten(rules, front + rules.manifest_dir + back, fixture) == front + DIR@ + back,
{
    let line = front + rules.manifest_dir + back;
    lemma_scratch_absent(rules, line, fixture);
    lemma_tools_absent(rules, line);
    law_a_whole_directory_is_replaced(front, rules.manifest_dir, back, DIR@);
    lemma_dependencies_absent(front + DIR@ + back, rules.dependencies);
}

/// A line that names the scratch project's copy of a fixture, as cargo names it, names
/// the fixture instead.
pub proof fn law_the_scratch_copy_goes_by_the_fixtures_name(
    rules: Rules,
    front: Seq<char>,
    back: Seq<char>,
    fixture: Seq<char>,
)
    requires
        ({
            let line = front + rules.scratch_relative + back;
            &&& rules.scratch_relative.len() > 0
            &&& forall|k: int| #[trigger]
                occurs_at(line, rules.scratch_relative, k) ==> k == front.len()
            &&& !has_text(line, rules.scratch_absolute)
            &&& !has_text(line, rules.scratch_root)
        }),
        ({
            let named = front + fixture + back;
            &&& free_of_tools(rules, named)
            &&& !has_text(named, rules.bin)
            &&& !has_text(named, rules.manifest_dir)
            &&& free_of(named, rules.dependencies)
        }),
    ensures
        paths_rewritten(rules, front + rules.scratch_relative + back, fixture) == front + fixture
            + back,
{
    let line = front + rules.scratch_relative + back;
    let named = front + fixture + back;
    lemma_dir_absent(line, rules.scratch_absolute, fixture);
    lemma_dir_absent(line, rules.scratch_root, SCRATCH@);
    lemma_replace_once(front, rules.scratch_relative, back, fixture);
    lemma_replace_absent(named, rules.bin, CRATE@);
    lemma_tools_absent(rules, named);
    lemma_dir_absent(named, rules.manifest_dir, DIR@);
    lemma_dependencies_absent(named, rules.dependencies);
}

/// A line that names a place in a declared dependency outside the host crate says the
/// dependency's placeholder for where that is, and is otherwise the same on every
/// machine.
pub proof fn law_where_a_dependency_is_makes_no_difference(
    rules: Rules,
    front: Seq<char>,
    i: int,
    back: Seq<char>,
    fixture: Seq<char>,
)
    requires
        0 <= i < rules.dependencies.len(),
        may_start(char_at(front, front.len() - 1)),
        may_end(char_at(back, 0)),
        ({
            let path = rules.dependencies[i].0;
            let line = front + path + back;
            &&& path.len() > 0
            &&& forall|k: int| #[trigger] occurs_at(line, path, k) ==> k == front.len()
            &&& free_of_scratch(rules, line)
            &&& free_of_tools(rules, line)
            &&& !has_text(line, rules.manifest_dir)
            &&& free_of(line, rules.dependencies.take(i))
        }),
        free_of(front + rules.dependencies[i].1 + back, rules.dependencies.skip(i + 1)),
    ensures
        paths_rewritten(rules, front + rules.dependencies[i].0 + back, fixture) == front
            + rules.dependencies[i].1 + back,
{
    let line = front + rules.dependencies[i].0 + back;
    lemma_scratch_absent(rules, line, fixture);
    lemma_tools_absent(rules, line);
    lemma_dir_absent(line, rules.manifest_dir, DIR@);
    lemma_one_dependency(front, rules.dependencies, i, back);
}

proof fn lemma_one_dependency(
    front: Seq<char>,
    dependencies: Seq<(Seq<char>, Seq<char>)>,
    i: int,
    back: Seq<char>,
)
    requires
        0 <= i < dependencies.len(),
        may_start(char_at(front, front.len() - 1)),
        may_end(char_at(back, 0)),
        dependencies[i].0.len() > 0,
        forall|k: int| #[trigger]
            occurs_at(front + dependencies[i].0 + back, dependencies[i].0, k) ==> k == front.len(),
        free_of(front + dependencies[i].0 + back, dependencies.take(i)),
        free_of(front + dependencies[i].1 + back, dependencies.skip(i + 1)),
    ensures
        dependencies_replaced(front + dependencies[i].0 + back, dependencies) == front
            + dependencies[i].1 + back,
    decreases i,
{
    let line = front + dependencies[i].0 + back;
    let rest = dependencies.drop_first();
    if i == 0 {
        law_a_whole_directory_is_replaced(front, dependencies[0].0, back, dependencies[0].1);
        assert(rest =~= dependencies.skip(1));
        lemma_dependencies_absent(front + dependencies[0].1 + back, rest);
    } else {
        assert(dependencies.take(i)[0] == dependencies[0]);
        assert(!has_text(line, dependencies[0].0));
        lemma_dir_absent(line, dependencies[0].0, dependencies[0].1);
        assert(rest[i - 1] == dependencies[i]);
        assert forall|j: int| 0 <= j < rest.take(i - 1).len() implies !has_text(
            line,
            (#[trigger] rest.take(i - 1)[j]).0,
        ) by {
            assert(rest.take(i - 1)[j] == dependencies.take(i)[j + 1]);
        }
        assert(rest.skip(i) =~= dependencies.skip(i + 1));
        lemma_one_dependency(front, rest, i - 1, back);
    }
}

// ---------------------------------------------------------------------------
// What a line with a place in it comes to.
// ---------------------------------------------------------------------------

/// Whether a line names nothing of a toolchain.
pub open spec fn free_of_toolchains(line: Seq<char>) -> bool {
    &&& !has_text(line, "/lib/rustlib/src/rust/library/"@)
    &&& !has_text(line, "/lib/rustlib/src/rust/src/"@)
    &&& !has_text(line, "/rustc/"@)
}

/// A line that names a source in the registry says `$CARGO_REGISTRY` for where that is,
/// whatever cargo's home and the index are called, and is otherwise the same.
pub proof fn law_the_registry_goes_by_its_placeholder(
    rules: Rules,
    home: Seq<char>,
    front: Seq<char>,
    index: Seq<char>,
    rest: Seq<char>,
    fixture: Seq<char>,
)
    requires
        rules.cargo_home == Some(home),
        home.len() > 0,
        home.last() != '/',
        forall|i: int| 0 <= i < index.len() ==> index[i] != '/',
        ({
            let prefix = home + "/registry/src/"@;
            let line = front + prefix + index + seq!['/'] + rest;
            &&& forall|k: int| #[trigger] occurs_at(line, prefix, k) ==> k == front.len()
            &&& free_of_scratch(rules, line)
            &&& free_of_toolchains(line)
        }),
        ({
            let named = front + "$CARGO_REGISTRY/"@ + rest;
            &&& !has_text(named, home)
            &&& !has_text(named, rules.manifest_dir)
            &&& free_of(named, rules.dependencies)
        }),
    ensures
        paths_rewritten(
            rules,
            front + (home + "/registry/src/"@) + index + seq!['/'] + rest,
            fixture,
        ) == front + "$CARGO_REGISTRY/"@ + rest,
{
    let line = front + (home + "/registry/src/"@) + index + seq!['/'] + rest;
    let named = front + "$CARGO_REGISTRY/"@ + rest;
    lemma_scratch_absent(rules, line, fixture);
    lemma_tools_absent(Rules { cargo_home: None, ..rules }, line);
    assert(registry_prefix(home) == home + "/registry/src/"@) by {
        lemma_trailing_is(home, Class::Separator, 0);
        assert(home.take(home.len() as int) =~= home);
    }
    assert(registry_replaced(line, home) == named) by {
        reveal_strlit("$CARGO_REGISTRY/");
        reveal_strlit("$CARGO_REGISTRY");
        law_where_the_registry_is_makes_no_difference(home, front, index, rest);
        assert(front + CARGO_REGISTRY@ + seq!['/'] + rest =~= named);
    }
    lemma_dir_absent(named, home, CARGO_HOME@);
    lemma_dir_absent(named, rules.manifest_dir, DIR@);
    lemma_dependencies_absent(named, rules.dependencies);
}

/// A line that names a toolchain's own source says `$RUST` for where that is, whatever
/// the toolchain is called and wherever it is installed, and is otherwise the same.
pub proof fn law_a_toolchain_goes_by_its_placeholder(
    rules: Rules,
    front: Seq<char>,
    place: Seq<char>,
    rest: Seq<char>,
    fixture: Seq<char>,
)
    requires
        forall|i: int| 0 <= i < place.len() ==> Class::PathBody.has(place[i]),
        front.len() > 0 ==> !Class::PathBody.has(front.last()),
        ({
            let marker = "/lib/rustlib/src/rust/library/"@;
            let line = front + place + marker + rest;
            &&& forall|k: int| #[trigger]
                occurs_at(line, marker, k) ==> k == front.len() + place.len()
            &&& free_of_scratch(rules, line)
        }),
        ({
            let named = front + "$RUST/"@ + rest;
            &&& free_of_tools(rules, named)
            &&& !has_text(named, rules.manifest_dir)
            &&& free_of(named, rules.dependencies)
        }),
    ensures
        paths_rewritten(
            rules,
            front + place + "/lib/rustlib/src/rust/library/"@ + rest,
            fixture,
        ) == front + "$RUST/"@ + rest,
{
    reveal_strlit("/lib/rustlib/src/rust/library/");
    reveal_strlit("/lib/rustlib/src/rust/src/");
    reveal_strlit("$RUST");
    reveal_strlit("$RUST/");
    let line = front + place + "/lib/rustlib/src/rust/library/"@ + rest;
    let to = RUST@ + seq!['/'];
    let named = front + "$RUST/"@ + rest;
    assert(to =~= "$RUST/"@);
    lemma_scratch_absent(rules, line, fixture);
    law_where_the_toolchain_is_makes_no_difference(front, place, LIBRARY_MARKER@, rest, to);
    lemma_absent(named, OLDER_MARKER@, 0);
    assert(sysroot_stripped(named, OLDER_MARKER@, to) == named);
    lemma_absent(named, LIBRARY_MARKER@, 0);
    lemma_absent(named, "/rustc/"@, 0);
    assert(named.skip(0) =~= named);
    assert(sysroot_replaced(line) == named);
    lemma_tools_absent(rules, named);
    lemma_dir_absent(named, rules.manifest_dir, DIR@);
    lemma_dependencies_absent(named, rules.dependencies);
}

/// A line that names a distributed toolchain's source says `$RUST` for where that is,
/// whichever commit it was built from, and is otherwise the same.
pub proof fn law_a_commit_goes_by_the_placeholder(
    rules: Rules,
    front: Seq<char>,
    commit: Seq<char>,
    rest: Seq<char>,
    fixture: Seq<char>,
)
    requires
        commit.len() == 40,
        forall|i: int| 0 <= i < commit.len() ==> is_hex(commit[i]),
        ({
            let line = front + "/rustc/"@ + commit + "/library/"@ + rest;
            &&& forall|k: int| #[trigger] occurs_at(line, "/rustc/"@, k) ==> k == front.len()
            &&& free_of_scratch(rules, line)
            &&& !has_text(line, "/lib/rustlib/src/rust/library/"@)
            &&& !has_text(line, "/lib/rustlib/src/rust/src/"@)
        }),
        ({
            let named = front + "$RUST/"@ + rest;
            &&& free_of_tools(rules, named)
            &&& !has_text(named, rules.manifest_dir)
            &&& free_of(named, rules.dependencies)
        }),
    ensures
        paths_rewritten(rules, front + "/rustc/"@ + commit + "/library/"@ + rest, fixture) == front
            + "$RUST/"@ + rest,
{
    reveal_strlit("$RUST");
    reveal_strlit("$RUST/");
    reveal_strlit("/lib/rustlib/src/rust/library/");
    reveal_strlit("/lib/rustlib/src/rust/src/");
    let line = front + "/rustc/"@ + commit + "/library/"@ + rest;
    let named = front + "$RUST/"@ + rest;
    lemma_scratch_absent(rules, line, fixture);
    lemma_absent(line, LIBRARY_MARKER@, 0);
    lemma_absent(line, OLDER_MARKER@, 0);
    law_the_commit_makes_no_difference(front, commit, rest);
    assert(front + RUST@ + seq!['/'] + rest =~= named);
    lemma_tools_absent(rules, named);
    lemma_dir_absent(named, rules.manifest_dir, DIR@);
    lemma_dependencies_absent(named, rules.dependencies);
}

/// A line that names a place in cargo's home outside the registry says `$CARGO_HOME` for
/// where that is, whoever's home it is, and is otherwise the same.
pub proof fn law_cargos_home_goes_by_its_placeholder(
    rules: Rules,
    home: Seq<char>,
    front: Seq<char>,
    back: Seq<char>,
    fixture: Seq<char>,
)
    requires
        rules.cargo_home == Some(home),
        home.len() > 0,
        may_start(char_at(front, front.len() - 1)),
        may_end(char_at(back, 0)),
        ({
            let line = front + home + back;
            &&& forall|k: int| #[trigger] occurs_at(line, home, k) ==> k == front.len()
            &&& free_of_scratch(rules, line)
            &&& free_of_toolchains(line)
            &&& !has_text(line, registry_prefix(home))
        }),
        ({
            let named = front + "$CARGO_HOME"@ + back;
            &&& !has_text(named, rules.manifest_dir)
            &&& free_of(named, rules.dependencies)
        }),
    ensures
        paths_rewritten(rules, front + home + back, fixture) == front + "$CARGO_HOME"@ + back,
{
    let line = front + home + back;
    let named = front + "$CARGO_HOME"@ + back;
    lemma_scratch_absent(rules, line, fixture);
    lemma_tools_absent(Rules { cargo_home: None, ..rules }, line);
    lemma_absent(line, registry_prefix(home), 0);
    assert(line.skip(0) =~= line);
    law_a_whole_directory_is_replaced(front, home, back, CARGO_HOME@);
    lemma_dir_absent(named, rules.manifest_dir, DIR@);
    lemma_dependencies_absent(named, rules.dependencies);
}

/// A line that names the scratch project says `$SCRATCH` for where that is, and is otherwise
/// the same.
pub proof fn law_the_scratch_project_goes_by_its_placeholder(
    rules: Rules,
    front: Seq<char>,
    back: Seq<char>,
    fixture: Seq<char>,
)
    requires
        rules.scratch_root.len() > 0,
        may_start(char_at(front, front.len() - 1)),
        may_end(char_at(back, 0)),
        ({
            let line = front + rules.scratch_root + back;
            &&& forall|k: int| #[trigger]
                occurs_at(line, rules.scratch_root, k) ==> k == front.len()
            &&& !has_text(line, rules.scratch_absolute)
        }),
        ({
            let named = front + "$SCRATCH"@ + back;
            &&& !has_text(named, rules.scratch_relative)
            &&& !has_text(named, rules.bin)
            &&& free_of_tools(rules, named)
            &&& !has_text(named, rules.manifest_dir)
            &&& free_of(named, rules.dependencies)
        }),
    ensures
        paths_rewritten(rules, front + rules.scratch_root + back, fixture) == front + "$SCRATCH"@
            + back,
{
    let line = front + rules.scratch_root + back;
    let named = front + "$SCRATCH"@ + back;
    lemma_dir_absent(line, rules.scratch_absolute, fixture);
    law_a_whole_directory_is_replaced(front, rules.scratch_root, back, SCRATCH@);
    lemma_replace_absent(named, rules.scratch_relative, fixture);
    lemma_replace_absent(named, rules.bin, CRATE@);
    lemma_tools_absent(rules, named);
    lemma_dir_absent(named, rules.manifest_dir, DIR@);
    lemma_dependencies_absent(named, rules.dependencies);
}

/// A line that names where the scratch copy of a fixture is names the fixture instead.
pub proof fn law_where_the_scratch_copy_is_makes_no_difference(
    rules: Rules,
    front: Seq<char>,
    back: Seq<char>,
    fixture: Seq<char>,
)
    requires
        rules.scratch_absolute.len() > 0,
        may_start(char_at(front, front.len() - 1)),
        may_end(char_at(back, 0)),
        ({
            let line = front + rules.scratch_absolute + back;
            forall|k: int| #[trigger]
                occurs_at(line, rules.scratch_absolute, k) ==> k == front.len()
        }),
        ({
            let named = front + fixture + back;
            &&& !has_text(named, rules.scratch_root)
            &&& !has_text(named, rules.scratch_relative)
            &&& !has_text(named, rules.bin)
            &&& free_of_tools(rules, named)
            &&& !has_text(named, rules.manifest_dir)
            &&& free_of(named, rules.dependencies)
        }),
    ensures
        paths_rewritten(rules, front + rules.scratch_absolute + back, fixture) == front + fixture
            + back,
{
    let named = front + fixture + back;
    law_a_whole_directory_is_replaced(front, rules.scratch_absolute, back, fixture);
    lemma_dir_absent(named, rules.scratch_root, SCRATCH@);
    lemma_replace_absent(named, rules.scratch_relative, fixture);
    lemma_replace_absent(named, rules.bin, CRATE@);
    lemma_tools_absent(rules, named);
    lemma_dir_absent(named, rules.manifest_dir, DIR@);
    lemma_dependencies_absent(named, rules.dependencies);
}

/// A line that names a fixture's bin, wherever in it, says `$CRATE` instead.
pub proof fn law_a_bin_goes_by_its_placeholder(
    rules: Rules,
    front: Seq<char>,
    back: Seq<char>,
    fixture: Seq<char>,
)
    requires
        rules.bin.len() > 0,
        ({
            let line = front + rules.bin + back;
            &&& forall|k: int| #[trigger] occurs_at(line, rules.bin, k) ==> k == front.len()
            &&& !has_text(line, rules.scratch_absolute)
            &&& !has_text(line, rules.scratch_root)
            &&& !has_text(line, rules.scratch_relative)
        }),
        ({
            let named = front + "$CRATE"@ + back;
            &&& free_of_tools(rules, named)
            &&& !has_text(named, rules.manifest_dir)
            &&& free_of(named, rules.dependencies)
        }),
    ensures
        paths_rewritten(rules, front + rules.bin + back, fixture) == front + "$CRATE"@ + back,
{
    let line = front + rules.bin + back;
    let named = front + "$CRATE"@ + back;
    lemma_dir_absent(line, rules.scratch_absolute, fixture);
    lemma_dir_absent(line, rules.scratch_root, SCRATCH@);
    lemma_replace_absent(line, rules.scratch_relative, fixture);
    lemma_replace_once(front, rules.bin, back, CRATE@);
    lemma_tools_absent(rules, named);
    lemma_dir_absent(named, rules.manifest_dir, DIR@);
    lemma_dependencies_absent(named, rules.dependencies);
}

/// A dependency goes by its name: a dollar sign and then the name in capitals, with an
/// underscore for a hyphen.
pub proof fn law_a_placeholder_is_the_name_in_capitals(name: Seq<char>, i: int)
    requires
        0 <= i < name.len(),
    ensures
        ({
            let out = placeholder_of(name);
            &&& out.len() == name.len() + 1
            &&& out[0] == '$'
            &&& name[i] == '-' ==> out[i + 1] == '_'
            &&& 'a' <= name[i] <= 'z' ==> out[i + 1] as u32 == name[i] as u32 - 32
            &&& name[i] != '-' && !('a' <= name[i] <= 'z') ==> out[i + 1] == name[i]
        }),
{
    assert(placeholder_of(name)[i + 1] == placeholder_char(name[i]));
}

// ---------------------------------------------------------------------------
// What becomes of a line in its place.
// ---------------------------------------------------------------------------

/// Every line is kept, in its place: outside another file's snippet it is rewritten whole,
/// and inside one without its number; and the snippet goes on through the rows with a
/// number, a bar or dots, and ends at anything else.
pub proof fn law_every_line_is_kept_in_its_place(
    rules: Rules,
    fixture: Seq<char>,
    line: Seq<char>,
    rest: Seq<Seq<char>>,
    foreign: bool,
)
    requires
        target_of(rewritten(rules, fixture, line, foreign)) is None,
    ensures
        ({
            let bare = trim_end(line);
            let body = trim_start(bare);
            let goes_on = foreign && body.len() > 0 && ('0' <= body[0] <= '9' || body[0] == '|'
                || body[0] == '.');
            let read = if goes_on {
                number_blanked(bare)
            } else {
                bare
            };
            lines_normalized(rules, fixture, seq![line] + rest, foreign) == seq![
                count_hidden(paths_rewritten(rules, read, fixture)),
            ] + lines_normalized(rules, fixture, rest, goes_on)
        }),
{
    reveal(line_normalized);
    let all = seq![line] + rest;
    assert(all[0] == line);
    assert(all.drop_first() =~= rest);
}

/// A span header is recognized by its arrow, however far it is set in, and points at what
/// stands behind.
pub proof fn law_a_span_header_points_behind_its_arrow(pad: Seq<char>, target: Seq<char>)
    requires
        forall|i: int| 0 <= i < pad.len() ==> Class::Whitespace.has(pad[i]),
    ensures
        target_of(pad + ("--> "@ + target)) == Some(target),
        target_of(pad + ("::: "@ + target)) == Some(target),
{
    reveal_strlit("--> ");
    reveal_strlit("::: ");
    let one = "--> "@ + target;
    let other = "::: "@ + target;
    lemma_set_in(pad, one);
    lemma_set_in(pad, other);
    assert(one.subrange(0, 4) =~= "--> "@);
    assert(other.subrange(0, 4) =~= "::: "@);
    assert(other.subrange(0, 4)[0] == ':');
    if starts_with(other, "--> "@) {
        assert(other.subrange(0, 4)[0] == '-');
    }
    assert(one.skip(4) =~= target);
    assert(other.skip(4) =~= target);
}

proof fn lemma_set_in(pad: Seq<char>, text: Seq<char>)
    requires
        forall|i: int| 0 <= i < pad.len() ==> Class::Whitespace.has(pad[i]),
        text.len() > 0,
        !Class::Whitespace.has(text[0]),
    ensures
        trim_start(pad + text) == text,
{
    let line = pad + text;
    assert forall|i: int| 0 <= i < pad.len() implies Class::Whitespace.has(line[i]) by {
        assert(line[i] == pad[i]);
    }
    assert(line[pad.len() as int] == text[0]);
    lemma_leading_is(line, Class::Whitespace, pad.len());
    assert(line.skip(pad.len() as int) =~= text);
}

/// A span points into the fixture if it is the fixture's path, or goes on from it with a
/// position; a longer name that begins like it is another file.
pub proof fn law_a_longer_name_is_another_file(fixture: Seq<char>, rest: Seq<char>)
    ensures
        is_into(fixture, fixture),
        rest.len() > 0 ==> is_into(fixture + rest, fixture) == (rest[0] == ':'),
{
    assert(fixture.subrange(0, fixture.len() as int) =~= fixture);
    let whole = fixture + rest;
    assert(whole.subrange(0, fixture.len() as int) =~= fixture);
    assert(whole.skip(fixture.len() as int) =~= rest);
}

/// A text that names no place of this machine, points nowhere, lists nothing and opens no
/// diagnostic is what it was, but for white space at the ends of its lines and blank lines
/// at its end.
pub proof fn law_a_text_that_names_no_place_stays(
    rules: Rules,
    text: Seq<char>,
    fixture: Seq<char>,
)
    requires
        forall|i: int|
            0 <= i < lines(text).len() ==> is_inert(rules, fixture, #[trigger] lines(text)[i]),
    ensures
        normalized(rules, text, fixture) == finished(join(lines(text), "\n"@)),
{
    reveal(normalized);
    let list = lines(text);
    lemma_inert_lines(rules, fixture, list);
    assert forall|i: int| 0 <= i < list.len() implies !opens_list(#[trigger] list[i])
        && !opens_diagnostic(list[i]) && !is_attached(list[i]) by {
        assert(is_inert(rules, fixture, list[i]));
    }
    law_lines_outside_lists_stay(list);
    law_lines_outside_diagnostics_stay(list);
}

/// Whether a line holds nothing that normalizing would change, and nothing that would
/// change what comes of the lines after it.
pub open spec fn is_inert(rules: Rules, fixture: Seq<char>, line: Seq<char>) -> bool {
    &&& trim_end(line) == line
    &&& paths_rewritten(rules, line, fixture) == line
    &&& count_hidden(line) == line
    &&& target_of(line) is None
    &&& !opens_list(line)
    &&& !opens_diagnostic(line)
    &&& !is_attached(line)
}

proof fn lemma_inert_lines(rules: Rules, fixture: Seq<char>, list: Seq<Seq<char>>)
    requires
        forall|i: int| 0 <= i < list.len() ==> is_inert(rules, fixture, #[trigger] list[i]),
    ensures
        lines_normalized(rules, fixture, list, false) == list,
    decreases list.len(),
{
    if list.len() > 0 {
        reveal(line_normalized);
        let rest = list.drop_first();
        assert(is_inert(rules, fixture, list[0]));
        assert forall|i: int| 0 <= i < rest.len() implies is_inert(
            rules,
            fixture,
            #[trigger] rest[i],
        ) by {
            assert(rest[i] == list[i + 1]);
        }
        lemma_inert_lines(rules, fixture, rest);
        assert(seq![list[0]] + rest =~= list);
    }
}

/// A text is finished with one line feed, however many it had, and one without any text is
/// left without.
pub proof fn law_a_text_is_finished_with_one_line_feed(text: Seq<char>, n: nat)
    requires
        text.len() == 0 || text.last() != '\n',
    ensures
        finished(text + Seq::new(n, |i: int| '\n')) == (if text.len() == 0 {
            text
        } else {
            text.push('\n')
        }),
    decreases n,
{
    let feeds = Seq::new(n, |i: int| '\n');
    let whole = text + feeds;
    if n == 0 {
        assert(whole =~= text);
    } else {
        assert(whole.last() == '\n');
        assert(whole.drop_last() =~= text + Seq::new((n - 1) as nat, |i: int| '\n'));
        law_a_text_is_finished_with_one_line_feed(text, (n - 1) as nat);
    }
}

/// Dependencies are replaced one after the other, every one of them.
pub proof fn law_every_dependency_is_replaced(
    line: Seq<char>,
    first: Seq<(Seq<char>, Seq<char>)>,
    second: Seq<(Seq<char>, Seq<char>)>,
    dir: Seq<char>,
    placeholder: Seq<char>,
)
    ensures
        dependencies_replaced(line, first + second) == dependencies_replaced(
            dependencies_replaced(line, first),
            second,
        ),
        dependencies_replaced(line, seq![(dir, placeholder)]) == dir_replaced(
            line,
            dir,
            placeholder,
        ),
    decreases first.len(),
{
    let one = seq![(dir, placeholder)];
    let replaced = dir_replaced(line, dir, placeholder);
    assert(one.drop_first() =~= seq![]);
    assert(dependencies_replaced(replaced, one.drop_first()) == replaced);
    let all = first + second;
    if first.len() == 0 {
        assert(all =~= second);
    } else {
        assert(all[0] == first[0]);
        assert(all.drop_first() =~= first.drop_first() + second);
        law_every_dependency_is_replaced(
            dir_replaced(line, first[0].0, first[0].1),
            first.drop_first(),
            second,
            dir,
            placeholder,
        );
    }
}

/// Dependencies that were declared in order, the longest path first, stay as they were
/// declared, and so do those with paths of one length.
pub proof fn law_dependencies_in_order_stay(deps: Seq<(Seq<char>, Seq<char>)>)
    requires
        forall|i: int, j: int|
            0 <= i < j < deps.len() ==> byte_len(#[trigger] deps[i].1) >= byte_len(
                #[trigger] deps[j].1,
            ),
    ensures
        longest_first(deps) == placeholders(deps),
    decreases deps.len(),
{
    if deps.len() == 0 {
        assert(placeholders(deps) =~= seq![]);
    } else {
        let rest = deps.drop_last();
        assert forall|i: int, j: int| 0 <= i < j < rest.len() implies byte_len(
            #[trigger] rest[i].1,
        ) >= byte_len(#[trigger] rest[j].1) by {
            assert(rest[i] == deps[i] && rest[j] == deps[j]);
        }
        law_dependencies_in_order_stay(rest);
        let pair = (deps.last().1, placeholder_of(deps.last().0));
        let before = placeholders(rest);
        if rest.len() > 0 {
            assert(before.last().0 == deps[deps.len() - 2].1);
            assert(byte_len(deps[deps.len() - 2].1) >= byte_len(deps[deps.len() - 1].1));
        }
        assert(insert_by_length(before, pair) == before.push(pair));
        assert(before.push(pair) =~= placeholders(deps));
    }
}

/// So does a line that names the source of an older toolchain, which lies elsewhere in it.
pub proof fn law_an_older_toolchain_goes_by_its_placeholder(
    rules: Rules,
    front: Seq<char>,
    place: Seq<char>,
    rest: Seq<char>,
    fixture: Seq<char>,
)
    requires
        forall|i: int| 0 <= i < place.len() ==> Class::PathBody.has(place[i]),
        front.len() > 0 ==> !Class::PathBody.has(front.last()),
        ({
            let marker = "/lib/rustlib/src/rust/src/"@;
            let line = front + place + marker + rest;
            &&& forall|k: int| #[trigger]
                occurs_at(line, marker, k) ==> k == front.len() + place.len()
            &&& !has_text(line, "/lib/rustlib/src/rust/library/"@)
            &&& free_of_scratch(rules, line)
        }),
        ({
            let named = front + "$RUST/"@ + rest;
            &&& free_of_tools(rules, named)
            &&& !has_text(named, rules.manifest_dir)
            &&& free_of(named, rules.dependencies)
        }),
    ensures
        paths_rewritten(
            rules,
            front + place + "/lib/rustlib/src/rust/src/"@ + rest,
            fixture,
        ) == front + "$RUST/"@ + rest,
{
    reveal_strlit("/lib/rustlib/src/rust/library/");
    reveal_strlit("/lib/rustlib/src/rust/src/");
    reveal_strlit("$RUST");
    reveal_strlit("$RUST/");
    let line = front + place + "/lib/rustlib/src/rust/src/"@ + rest;
    let to = RUST@ + seq!['/'];
    let named = front + "$RUST/"@ + rest;
    assert(to =~= "$RUST/"@);
    lemma_scratch_absent(rules, line, fixture);
    lemma_absent(line, LIBRARY_MARKER@, 0);
    assert(sysroot_stripped(line, LIBRARY_MARKER@, to) == line);
    law_where_the_toolchain_is_makes_no_difference(front, place, OLDER_MARKER@, rest, to);
    lemma_absent(named, OLDER_MARKER@, 0);
    assert(sysroot_stripped(named, OLDER_MARKER@, to) == named);
    lemma_absent(named, "/rustc/"@, 0);
    assert(named.skip(0) =~= named);
    assert(sysroot_replaced(line) == named);
    lemma_tools_absent(rules, named);
    lemma_dir_absent(named, rules.manifest_dir, DIR@);
    lemma_dependencies_absent(named, rules.dependencies);
}

} // verus!

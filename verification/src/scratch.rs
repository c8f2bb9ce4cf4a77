//! The scratch cargo project that fixtures are compiled in.
//!
//! One directory, reused across every fixture in a run, so dependencies compile
//! once and each fixture costs a single crate's worth of work. Two hazards live
//! here:
//!
//! 1. **The target-directory lock.** The harness runs `cargo` from inside a
//!    running `cargo test`, so the scratch project always builds into a target
//!    directory of its own.
//! 2. **The parent workspace.** A manifest written inside a workspace member's
//!    target directory is absorbed by that workspace unless it declares an empty
//!    `[workspace]` table.
use crate::environment::{first_marked, probed, Environment, Surroundings};
use crate::path::{
    components, fold, is_name, join_path, law_a_joined_name_is_one_more_component, lemma_is_name,
    lexical_join, lexical_path, path_join, render, Part,
};
use crate::text::{
    ascii_alphanumeric, ascii_lower, before, chars_of, decimal, ends_with, has_suffix, has_text,
    hex_digit, holds, is_ascii_alphanumeric, lemma_decimal_digits, lemma_decimal_injective,
    lemma_has_text, lower, occurs_at, push_chars, push_text, string_of, strings, to_decimal,
    trim_end, trimmed_end,
};
use vstd::prelude::*;
use vstd::utf8::encode_utf8;

verus! {

/// The package name of the generated project. It appears only in cargo's own
/// error lines, which carry no fixture attribution and so reach no golden.
pub const CRATE_NAME: &'static str = "nocompile-scratch";

/// A path dependency the caller declared.
#[derive(Debug)]
pub struct Dependency {
    pub name: String,
    pub path: String,
}

impl View for Dependency {
    type V = (Seq<char>, Seq<char>);

    open spec fn view(&self) -> (Seq<char>, Seq<char>) {
        (self.name@, self.path@)
    }
}

/// The name and path of each declared dependency.
pub open spec fn declared(deps: Seq<Dependency>) -> Seq<(Seq<char>, Seq<char>)> {
    deps.map_values(|d: Dependency| d@)
}

// ---------------------------------------------------------------------------
// Names.
// ---------------------------------------------------------------------------

/// One character of a package name, as part of a path component.
pub open spec fn component_char(c: char) -> char {
    if is_ascii_alphanumeric(c) || c == '-' || c == '_' {
        c
    } else {
        '_'
    }
}

/// A package name as a single path component.
pub open spec fn sanitized(name: Seq<char>) -> Seq<char> {
    name.map_values(|c: char| component_char(c))
}

/// One character of a fixture path, as part of a bin name.
pub open spec fn bin_char(c: char) -> char {
    if is_ascii_alphanumeric(c) || c == '_' {
        lower(c)
    } else {
        '_'
    }
}

/// A fixture path without the extension of a source file.
pub open spec fn without_rs(relative: Seq<char>) -> Seq<char> {
    if ends_with(relative, ".rs"@) {
        relative.take(relative.len() - ".rs"@.len())
    } else {
        relative
    }
}

/// A fixture path reduced to the characters a bin name and a file name share.
pub open spec fn bin_sanitized(relative: Seq<char>) -> Seq<char> {
    without_rs(relative).map_values(|c: char| bin_char(c))
}

/// Keep a package name usable as a single path component.
pub fn sanitize(name: &str) -> (r: String)
    ensures
        r@ == sanitized(name@),
{
    let name = chars_of(name);
    let mut out: String = String::new();
    let mut i: usize = 0;
    while i < name.len()
        invariant
            i <= name@.len(),
            out@ =~= sanitized(name@.take(i as int)),
        decreases name@.len() - i,
    {
        let c = name[i];
        out.push(
            if ascii_alphanumeric(c) || c == '-' || c == '_' {
                c
            } else {
                '_'
            },
        );
        i += 1;
    }
    assert(name@.take(i as int) =~= name@);
    out
}

/// Reduce a fixture path to the characters a bin name and a file name share.
pub fn sanitize_bin(relative: &str) -> (r: String)
    ensures
        r@ == bin_sanitized(relative@),
{
    proof {
        reveal_strlit(".rs");
    }
    let chars = chars_of(relative);
    let kept = if has_suffix(chars.as_slice(), ".rs") {
        before(chars.as_slice(), chars.len() - 3)
    } else {
        chars.as_slice()
    };
    let mut out: String = String::new();
    let mut i: usize = 0;
    while i < kept.len()
        invariant
            i <= kept@.len(),
            out@ =~= kept@.take(i as int).map_values(|c: char| bin_char(c)),
        decreases kept@.len() - i,
    {
        let c = kept[i];
        out.push(
            if ascii_alphanumeric(c) || c == '_' {
                ascii_lower(c)
            } else {
                '_'
            },
        );
        i += 1;
    }
    assert(kept@.take(i as int) =~= kept@);
    out
}

/// The bin name a fixture path asks for. The `f_` is there because a bin name
/// has to start with something that is not a digit, and a fixture path is free to.
pub open spec fn bin_base(relative: Seq<char>) -> Seq<char> {
    "f_"@ + bin_sanitized(relative)
}

/// The `n`th name tried for a fixture: the name itself, and numbered from the
/// second on.
pub open spec fn candidate(base: Seq<char>, n: nat) -> Seq<char> {
    if n <= 1 {
        base
    } else {
        base + "_"@ + decimal(n)
    }
}

/// Whether `name` is the first candidate for `base` that `names` has not taken.
pub open spec fn is_next_name(names: Seq<Seq<char>>, base: Seq<char>, name: Seq<char>) -> bool {
    !names.contains(name) && exists|n: nat|
        1 <= n && #[trigger] candidate(base, n) == name && (forall|m: nat|
            1 <= m < n ==> names.contains(#[trigger] candidate(base, m)))
}

/// Whether `names` are the bin names for `relatives`: each the first candidate
/// that the names before it left.
pub open spec fn are_bin_names(relatives: Seq<Seq<char>>, names: Seq<Seq<char>>) -> bool {
    &&& names.len() == relatives.len()
    &&& forall|i: int|
        0 <= i < names.len() ==> is_next_name(
            names.take(i),
            bin_base(relatives[i]),
            #[trigger] names[i],
        )
}

/// Candidates differ.
proof fn lemma_candidates_differ(base: Seq<char>, a: nat, b: nat)
    requires
        1 <= a,
        1 <= b,
        candidate(base, a) == candidate(base, b),
    ensures
        a == b,
{
    reveal_strlit("_");
    let left = candidate(base, a);
    let right = candidate(base, b);
    lemma_decimal_injective(a, b);
    lemma_decimal_injective(b, a);
    if a > 1 && b > 1 {
        let cut = base.len() + 1;
        assert(left.skip(cut as int) =~= decimal(a));
        assert(right.skip(cut as int) =~= decimal(b));
    }
}

/// A list that holds `n` different candidates is at least that long.
proof fn lemma_taken(names: Seq<Seq<char>>, base: Seq<char>, n: nat)
    requires
        forall|m: nat| 1 <= m <= n ==> names.contains(#[trigger] candidate(base, m)),
    ensures
        n <= names.len(),
{
    let tried = Seq::new(n, |i: int| candidate(base, (i + 1) as nat));
    assert(tried.no_duplicates()) by {
        assert forall|i: int, j: int|
            0 <= i < tried.len() && 0 <= j < tried.len() && i != j implies tried[i] != tried[j] by {
            if tried[i] == tried[j] {
                lemma_candidates_differ(base, (i + 1) as nat, (j + 1) as nat);
            }
        }
    }
    tried.unique_seq_to_set();
    names.lemma_cardinality_of_set();
    assert(tried.to_set().subset_of(names.to_set())) by {
        assert forall|x: Seq<char>| tried.to_set().contains(x) implies names.to_set().contains(
            x,
        ) by {
            let i = choose|i: int| 0 <= i < tried.len() && tried[i] == x;
            assert(names.contains(candidate(base, (i + 1) as nat)));
        }
    }
    vstd::set_lib::lemma_len_subset(tried.to_set(), names.to_set());
}

/// A bin target name for each fixture, in the order given.
///
/// Derived from the fixture's own path rather than its position. Cargo requires
/// the names be unique, and two different paths can sanitize to the same text, so
/// repeats get a numeric suffix.
pub fn bin_names(relatives: &[String]) -> (r: Vec<String>)
    ensures
        are_bin_names(strings(relatives@), strings(r@)),
        strings(r@).no_duplicates(),
{
    let mut names: Vec<String> = Vec::new();
    let ghost all = strings(relatives@);
    let mut i: usize = 0;
    while i < relatives.len()
        invariant
            i <= relatives@.len(),
            all == strings(relatives@),
            names@.len() == i,
            forall|k: int|
                0 <= k < i ==> is_next_name(
                    strings(names@).take(k),
                    bin_base(all[k]),
                    #[trigger] strings(names@)[k],
                ),
            strings(names@).no_duplicates(),
        decreases relatives@.len() - i,
    {
        let ghost taken = strings(names@);
        let mut base: Vec<char> = chars_of("f_");
        let tail = sanitize_bin(relatives[i].as_str());
        push_text(&mut base, tail.as_str());
        assert(base@ =~= bin_base(all[i as int]));
        let mut n: usize = 1;
        let mut name: String = string_of(base.as_slice());
        while holds(&names, name.as_str())
            invariant
                1 <= n,
                taken == strings(names@),
                names@.len() == i < relatives@.len(),
                name@ == candidate(base@, n as nat),
                forall|m: nat| 1 <= m < n ==> taken.contains(#[trigger] candidate(base@, m)),
            decreases names@.len() + 1 - n,
        {
            proof {
                assert(relatives.len() == relatives@.len());
                assert forall|m: nat| 1 <= m <= n implies taken.contains(
                    #[trigger] candidate(base@, m),
                ) by {}
                lemma_taken(taken, base@, n as nat);
            }
            n += 1;
            let mut next = chars_of("");
            push_chars(&mut next, base.as_slice());
            push_text(&mut next, "_");
            let number = to_decimal(n);
            push_chars(&mut next, number.as_slice());
            proof {
                reveal_strlit("");
                assert(next@ =~= candidate(base@, n as nat));
            }
            name = string_of(next.as_slice());
        }
        assert(candidate(base@, n as nat) == name@);
        assert(is_next_name(taken, bin_base(all[i as int]), name@));
        names.push(name);
        assert(strings(names@) =~= taken.push(name@));
        assert forall|k: int| 0 <= k < i + 1 implies is_next_name(
            strings(names@).take(k),
            bin_base(all[k]),
            #[trigger] strings(names@)[k],
        ) by {
            assert(strings(names@).take(k) =~= taken.take(k));
            if k == i {
                assert(taken.take(k) =~= taken);
            } else {
                assert(strings(names@)[k] == taken[k]);
            }
        }
        i += 1;
    }
    names
}

/// FNV-1a, 64 bits.
pub open spec fn fnv(bytes: Seq<u8>) -> u64
    decreases bytes.len(),
{
    if bytes.len() == 0 {
        0xcbf29ce484222325u64
    } else {
        (fnv(bytes.drop_last()) ^ (bytes.last() as u64)).wrapping_mul(0x100000001b3u64)
    }
}

/// The character for a hexadecimal digit.
pub open spec fn hex_char(n: nat, letters: nat) -> char {
    if n < 10 {
        ((48 + n) as u8) as char
    } else {
        ((letters + n - 10) as u8) as char
    }
}

/// The last `width` hexadecimal digits of `n`, letters in lowercase.
pub open spec fn hex(n: nat, width: nat) -> Seq<char>
    decreases width,
{
    if width == 0 {
        seq![]
    } else {
        hex(n / 16, (width - 1) as nat).push(hex_char(n % 16, 97))
    }
}

/// The bin target for one fixture: its path, made readable, and a hash of it.
pub open spec fn bin_of(relative: Seq<char>) -> Seq<char> {
    bin_base(relative) + "_"@ + hex(fnv(encode_utf8(relative)) as nat, 16)
}

fn push_hex(out: &mut Vec<char>, n: u64, width: usize)
    ensures
        final(out)@ == old(out)@ + hex(n as nat, width as nat),
    decreases width,
{
    if width > 0 {
        push_hex(out, n / 16, width - 1);
        let d: u8 = (n % 16) as u8;
        out.push(
            if d < 10 {
                (48 + d) as char
            } else {
                (97 + (d - 10)) as char
            },
        );
    }
    assert(out@ =~= old(out)@ + hex(n as nat, width as nat));
}

/// The bin target for one fixture.
///
/// Derived from the fixture's path alone, so it cannot depend on what else was
/// registered: adding a fixture renames no other. The name carries a hash of the
/// path, which makes it unlikely that a fixture's text holds it by accident, or that
/// two paths which sanitize to the same text share one name.
pub fn bin_name(relative: &str) -> (r: String)
    ensures
        r@ == bin_of(relative@),
{
    let mut out: Vec<char> = chars_of("f_");
    let tail = sanitize_bin(relative);
    push_text(&mut out, tail.as_str());
    push_text(&mut out, "_");
    let bytes = relative.as_bytes();
    let mut hash: u64 = 0xcbf29ce484222325u64;
    let mut i: usize = 0;
    assert(bytes@.take(0) =~= seq![]);
    while i < bytes.len()
        invariant
            i <= bytes@.len(),
            hash == fnv(bytes@.take(i as int)),
        decreases bytes@.len() - i,
    {
        assert(bytes@.take(i + 1).drop_last() =~= bytes@.take(i as int));
        hash = (hash ^ (bytes[i] as u64)).wrapping_mul(0x100000001b3u64);
        i += 1;
    }
    assert(bytes@.take(i as int) =~= bytes@);
    push_hex(&mut out, hash, 16);
    assert(out@ =~= bin_of(relative@));
    string_of(out.as_slice())
}

/// A bin's source file, relative to the scratch project.
pub open spec fn bin_source(bin: Seq<char>) -> Seq<char> {
    "src/bin/"@ + bin + ".rs"@
}

/// A bin's source file, relative to the scratch project, which is how cargo names
/// it in a span header.
pub fn bin_relative(bin: &str) -> (r: String)
    ensures
        r@ == bin_source(bin@),
{
    let mut out = chars_of("src/bin/");
    push_text(&mut out, bin);
    push_text(&mut out, ".rs");
    string_of(out.as_slice())
}

// ---------------------------------------------------------------------------
// Where the scratch project lives.
// ---------------------------------------------------------------------------

/// Where the scratch project and its private target directory live, as a value to
/// reason about.
pub struct Places {
    pub root: Seq<char>,
    pub project: Seq<char>,
    pub target: Seq<char>,
}

/// Where the scratch project and its private target directory live.
#[derive(Debug)]
pub struct Layout {
    /// Covers both the project and its target directory, so one substitution
    /// normalizes any path under either.
    pub root: String,
    /// The generated cargo project.
    pub project: String,
    /// A target directory the outer build does not own.
    pub target: String,
}

impl View for Layout {
    type V = Places;

    open spec fn view(&self) -> Places {
        Places { root: self.root@, project: self.project@, target: self.target@ }
    }
}

/// The target directory the outer build is using. A `CARGO_TARGET_DIR` wins,
/// resolved against the working directory, or against `.` where there is none to
/// ask. Without one it is the nearest directory above the test binary that cargo
/// marked, and without that the conventional one.
pub open spec fn outer_target(manifest_dir: Seq<char>, env: Surroundings) -> Seq<char> {
    match env.target_dir {
        Some(dir) => lexical_path(
            match env.current_dir {
                Some(current) => current,
                None => "."@,
            },
            dir,
        ),
        None => match first_marked(env.ancestors) {
            Some(dir) => dir,
            None => path_join(manifest_dir, "target"@),
        },
    }
}

/// The places under one root.
pub open spec fn places_under(root: Seq<char>) -> Places {
    Places { root, project: path_join(root, "project"@), target: path_join(root, "target"@) }
}

/// The root of the scratch project for one host crate.
pub open spec fn scratch_root(manifest_dir: Seq<char>, host: Seq<char>, env: Surroundings) -> Seq<
    char,
> {
    path_join(path_join(outer_target(manifest_dir, env), "nocompile"@), sanitized(host))
}

/// The generated manifest's path.
pub open spec fn manifest_in(places: Places) -> Seq<char> {
    path_join(places.project, "Cargo.toml"@)
}

/// Where fixture sources are written.
pub open spec fn bin_dir_in(places: Places) -> Seq<char> {
    path_join(path_join(places.project, "src"@), "bin"@)
}

/// Where one fixture's source is written.
pub open spec fn bin_path_in(places: Places, bin: Seq<char>) -> Seq<char> {
    path_join(bin_dir_in(places), bin + ".rs"@)
}

/// Find the target directory the outer build is using.
///
/// `CARGO_TARGET_DIR` wins when it is set. Otherwise the directories above the
/// test binary are searched for cargo's `CACHEDIR.TAG`, which correctly handles
/// both a workspace, where the target directory is at the workspace root and not
/// the member, and a `--target <triple>` build, where an extra component sits
/// between the profile directory and the target directory.
///
/// `.` and `..` in `CARGO_TARGET_DIR` are folded away: cargo normalizes the
/// manifest path it reports back, and every message is attributed by comparing
/// that path with the one it was handed.
pub fn target_dir(manifest_dir: &str, env: &Environment) -> (r: String)
    ensures
        r@ == outer_target(manifest_dir@, env@),
{
    if let Some(dir) = &env.target_dir {
        return match &env.current_dir {
            Some(current) => lexical_join(current.as_str(), dir.as_str()),
            None => lexical_join(".", dir.as_str()),
        };
    }
    let ghost all = probed(env.ancestors@);
    let mut i: usize = 0;
    assert(all.skip(0) =~= all);
    while i < env.ancestors.len()
        invariant
            i <= env.ancestors@.len(),
            env@.target_dir is None,
            all == probed(env.ancestors@),
            first_marked(all.skip(i as int)) == first_marked(all),
        decreases env.ancestors@.len() - i,
    {
        assert(all.skip(i as int)[0] == (env.ancestors@[i as int].0@, env.ancestors@[i as int].1));
        assert(all.skip(i as int).drop_first() =~= all.skip(i + 1));
        if env.ancestors[i].1 {
            return env.ancestors[i].0.clone();
        }
        i += 1;
    }
    join_path(manifest_dir, "target")
}

impl Layout {
    /// The layout for a host crate.
    pub fn new(manifest_dir: &str, host_pkg_name: &str, env: &Environment) -> (r: Self)
        ensures
            r@ == places_under(scratch_root(manifest_dir@, host_pkg_name@, env@)),
    {
        let outer = target_dir(manifest_dir, env);
        let ours = join_path(outer.as_str(), "nocompile");
        let host = sanitize(host_pkg_name);
        let root = join_path(ours.as_str(), host.as_str());
        Layout {
            project: join_path(root.as_str(), "project"),
            target: join_path(root.as_str(), "target"),
            root,
        }
    }

    /// The generated manifest's path.
    pub fn manifest(&self) -> (r: String)
        ensures
            r@ == manifest_in(self@),
    {
        join_path(self.project.as_str(), "Cargo.toml")
    }

    /// Where fixture sources are written, one bin target each.
    pub fn bin_dir(&self) -> (r: String)
        ensures
            r@ == bin_dir_in(self@),
    {
        let src = join_path(self.project.as_str(), "src");
        join_path(src.as_str(), "bin")
    }

    /// Where one fixture's source is written.
    pub fn bin_path(&self, bin: &str) -> (r: String)
        ensures
            r@ == bin_path_in(self@, bin@),
    {
        let mut file = chars_of(bin);
        push_text(&mut file, ".rs");
        let file = string_of(file.as_slice());
        let dir = self.bin_dir();
        join_path(dir.as_str(), file.as_str())
    }
}

// ---------------------------------------------------------------------------
// The manifest.
// ---------------------------------------------------------------------------

/// Whether a name needs no quotes as a TOML key.
pub open spec fn is_bare(name: Seq<char>) -> bool {
    name.len() > 0 && forall|i: int|
        0 <= i < name.len() ==> (is_ascii_alphanumeric(#[trigger] name[i]) || name[i] == '-'
            || name[i] == '_')
}

/// One character inside a TOML basic string.
pub open spec fn toml_char(c: char) -> Seq<char> {
    if c == '"' {
        seq!['\\', '"']
    } else if c == '\\' {
        seq!['\\', '\\']
    } else if c == '\n' {
        seq!['\\', 'n']
    } else if c == '\r' {
        seq!['\\', 'r']
    } else if c == '\t' {
        seq!['\\', 't']
    } else if (c as u32) < 0x20 {
        seq!['\\', 'u', '0', '0'] + seq![
            hex_char((c as u32 / 16) as nat, 65),
            hex_char((c as u32 % 16) as nat, 65),
        ]
    } else {
        seq![c]
    }
}

/// Every character of `value` as it stands inside a TOML basic string.
pub open spec fn toml_body(value: Seq<char>) -> Seq<char>
    decreases value.len(),
{
    if value.len() == 0 {
        seq![]
    } else {
        toml_char(value[0]) + toml_body(value.drop_first())
    }
}

/// A TOML basic string.
pub open spec fn toml_quoted(value: Seq<char>) -> Seq<char> {
    seq!['"'] + toml_body(value) + seq!['"']
}

/// A TOML key: bare where the name allows it.
pub open spec fn toml_name(name: Seq<char>) -> Seq<char> {
    if is_bare(name) {
        name
    } else {
        toml_quoted(name)
    }
}

/// The manifest's opening, up to its dependencies. The empty `[workspace]` keeps
/// the project out of the host's workspace, and `autobins = false` keeps a source
/// that an earlier run left behind from being compiled.
pub open spec fn manifest_head(edition: Seq<char>) -> Seq<char> {
    "# Generated by nocompile. Edits are overwritten on every run.\n[workspace]\n\n[package]\nname = \""@
        + CRATE_NAME@ + "\"\nversion = \"0.0.0\"\nedition = "@ + toml_quoted(edition)
        + "\npublish = false\nautobins = false\n\n[dependencies]\n"@
}

/// One line for each declared dependency.
pub open spec fn dependency_lines(deps: Seq<(Seq<char>, Seq<char>)>) -> Seq<char>
    decreases deps.len(),
{
    if deps.len() == 0 {
        seq![]
    } else {
        toml_name(deps[0].0) + " = { path = "@ + toml_quoted(deps[0].1) + " }\n"@
            + dependency_lines(deps.drop_first())
    }
}

/// One table for each bin target.
pub open spec fn bin_tables(bins: Seq<Seq<char>>) -> Seq<char>
    decreases bins.len(),
{
    if bins.len() == 0 {
        seq![]
    } else {
        "\n[[bin]]\nname = "@ + toml_quoted(bins[0]) + "\npath = "@ + toml_quoted(
            bin_source(bins[0]),
        ) + "\n"@ + bin_tables(bins.drop_first())
    }
}

/// The caller's own text, each piece on lines of its own.
pub open spec fn raw_lines(raw: Seq<Seq<char>>) -> Seq<char>
    decreases raw.len(),
{
    if raw.len() == 0 {
        seq![]
    } else {
        "\n"@ + trim_end(raw[0]) + "\n"@ + raw_lines(raw.drop_first())
    }
}

/// The scratch project's manifest.
pub open spec fn manifest_text(
    edition: Seq<char>,
    deps: Seq<(Seq<char>, Seq<char>)>,
    raw: Seq<Seq<char>>,
    bins: Seq<Seq<char>>,
) -> Seq<char> {
    manifest_head(edition) + dependency_lines(deps) + "\n"@ + bin_tables(bins) + raw_lines(raw)
}

fn push_toml_char(out: &mut Vec<char>, c: char)
    ensures
        final(out)@ == old(out)@ + toml_char(c),
{
    if c == '"' {
        out.push('\\');
        out.push('"');
    } else if c == '\\' {
        out.push('\\');
        out.push('\\');
    } else if c == '\n' {
        out.push('\\');
        out.push('n');
    } else if c == '\r' {
        out.push('\\');
        out.push('r');
    } else if c == '\t' {
        out.push('\\');
        out.push('t');
    } else if (c as u32) < 0x20 {
        let n: u8 = (c as u32) as u8;
        let low: u8 = n % 16;
        out.push('\\');
        out.push('u');
        out.push('0');
        out.push('0');
        out.push((48 + n / 16) as char);
        out.push(
            if low < 10 {
                (48 + low) as char
            } else {
                (65 + (low - 10)) as char
            },
        );
    } else {
        out.push(c);
    }
    assert(out@ =~= old(out)@ + toml_char(c));
}

/// A TOML basic string. Only the escapes TOML requires.
pub fn toml_string(value: &str) -> (r: String)
    ensures
        r@ == toml_quoted(value@),
{
    let value = chars_of(value);
    let mut out: Vec<char> = Vec::new();
    out.push('"');
    let mut i: usize = 0;
    assert(value@.skip(0) =~= value@);
    while i < value.len()
        invariant
            i <= value@.len(),
            out@ + toml_body(value@.skip(i as int)) =~= seq!['"'] + toml_body(value@),
        decreases value@.len() - i,
    {
        assert(value@.skip(i as int).drop_first() =~= value@.skip(i + 1));
        push_toml_char(&mut out, value[i]);
        i += 1;
    }
    out.push('"');
    assert(out@ =~= toml_quoted(value@));
    string_of(out.as_slice())
}

/// A bare TOML key where the name allows it, a quoted one otherwise.
pub fn toml_key(name: &str) -> (r: String)
    ensures
        r@ == toml_name(name@),
{
    let chars = chars_of(name);
    let mut bare: bool = chars.len() > 0;
    let mut i: usize = 0;
    while i < chars.len()
        invariant
            i <= chars@.len(),
            bare == (chars@.len() > 0 && forall|k: int|
                0 <= k < i ==> (is_ascii_alphanumeric(#[trigger] chars@[k]) || chars@[k] == '-'
                    || chars@[k] == '_')),
        decreases chars@.len() - i,
    {
        let c = chars[i];
        if !(ascii_alphanumeric(c) || c == '-' || c == '_') {
            bare = false;
        }
        i += 1;
    }
    if bare {
        name.to_owned()
    } else {
        toml_string(name)
    }
}

/// Generate the scratch project's manifest.
///
/// The manifest is written, not read. Inferring the host's dev-dependencies would
/// silently give a fixture access to crates the invariant under test never
/// mentions, so a fixture could pass for a reason nobody intended.
pub fn manifest(
    edition: &str,
    deps: &[Dependency],
    raw: &[String],
    bins: &[String],
) -> (r: String)
    ensures
        r@ == manifest_text(edition@, declared(deps@), strings(raw@), strings(bins@)),
{
    let mut out = chars_of(
        "# Generated by nocompile. Edits are overwritten on every run.\n[workspace]\n\n[package]\nname = \"",
    );
    push_text(&mut out, CRATE_NAME);
    push_text(&mut out, "\"\nversion = \"0.0.0\"\nedition = ");
    let edition_text = toml_string(edition);
    push_text(&mut out, edition_text.as_str());
    push_text(&mut out, "\npublish = false\nautobins = false\n\n[dependencies]\n");
    assert(out@ =~= manifest_head(edition@));

    let ghost start = out@;
    let ghost all = declared(deps@);
    let mut i: usize = 0;
    assert(all.skip(0) =~= all);
    while i < deps.len()
        invariant
            i <= deps@.len(),
            all == declared(deps@),
            out@ + dependency_lines(all.skip(i as int)) =~= start + dependency_lines(all),
        decreases deps@.len() - i,
    {
        assert(all.skip(i as int)[0] == deps@[i as int]@);
        assert(all.skip(i as int).drop_first() =~= all.skip(i + 1));
        let key = toml_key(deps[i].name.as_str());
        push_text(&mut out, key.as_str());
        push_text(&mut out, " = { path = ");
        let path = toml_string(deps[i].path.as_str());
        push_text(&mut out, path.as_str());
        push_text(&mut out, " }\n");
        i += 1;
    }
    assert(all.skip(i as int) =~= seq![]);
    push_text(&mut out, "\n");

    // One bin per fixture, so a single cargo invocation compiles them all and
    // every diagnostic arrives tagged with the target it came from.
    let ghost start = out@;
    let ghost all = strings(bins@);
    let mut i: usize = 0;
    assert(all.skip(0) =~= all);
    while i < bins.len()
        invariant
            i <= bins@.len(),
            all == strings(bins@),
            out@ + bin_tables(all.skip(i as int)) =~= start + bin_tables(all),
        decreases bins@.len() - i,
    {
        assert(all.skip(i as int)[0] == bins@[i as int]@);
        assert(all.skip(i as int).drop_first() =~= all.skip(i + 1));
        push_text(&mut out, "\n[[bin]]\nname = ");
        let name = toml_string(bins[i].as_str());
        push_text(&mut out, name.as_str());
        push_text(&mut out, "\npath = ");
        let source = bin_relative(bins[i].as_str());
        let path = toml_string(source.as_str());
        push_text(&mut out, path.as_str());
        push_text(&mut out, "\n");
        i += 1;
    }
    assert(all.skip(i as int) =~= seq![]);

    let ghost start = out@;
    let ghost all = strings(raw@);
    let mut i: usize = 0;
    assert(all.skip(0) =~= all);
    while i < raw.len()
        invariant
            i <= raw@.len(),
            all == strings(raw@),
            out@ + raw_lines(all.skip(i as int)) =~= start + raw_lines(all),
        decreases raw@.len() - i,
    {
        assert(all.skip(i as int)[0] == raw@[i as int]@);
        assert(all.skip(i as int).drop_first() =~= all.skip(i + 1));
        push_text(&mut out, "\n");
        let text = chars_of(raw[i].as_str());
        push_chars(&mut out, trimmed_end(text.as_slice()));
        push_text(&mut out, "\n");
        i += 1;
    }
    assert(all.skip(i as int) =~= seq![]);
    string_of(out.as_slice())
}

// ---------------------------------------------------------------------------
// Laws.
// ---------------------------------------------------------------------------

/// Whether a text can stand as a bin name and as a file name anywhere: it begins with a
/// letter, and holds only lowercase letters, digits and underscores.
pub open spec fn is_plain_name(s: Seq<char>) -> bool {
    s.len() > 0 && s[0] == 'f' && forall|i: int|
        0 <= i < s.len() ==> ('a' <= #[trigger] s[i] <= 'z' || '0' <= s[i] <= '9' || s[i] == '_')
}

proof fn lemma_hex_digits(n: nat, width: nat)
    ensures
        forall|i: int|
            0 <= i < hex(n, width).len() ==> ('a' <= #[trigger] hex(n, width)[i] <= 'f' || '0'
                <= hex(n, width)[i] <= '9'),
    decreases width,
{
    if width > 0 {
        let front = hex(n / 16, (width - 1) as nat);
        lemma_hex_digits(n / 16, (width - 1) as nat);
        assert forall|i: int| 0 <= i < hex(n, width).len() implies ('a' <= #[trigger] hex(
            n,
            width,
        )[i] <= 'f' || '0' <= hex(n, width)[i] <= '9') by {
            if i < front.len() {
                assert(hex(n, width)[i] == front[i]);
            }
        }
    }
}

proof fn lemma_base_is_plain(relative: Seq<char>)
    ensures
        is_plain_name(bin_base(relative)),
{
    reveal_strlit("f_");
    let base = bin_base(relative);
    let kept = without_rs(relative);
    assert forall|i: int| 0 <= i < base.len() implies ('a' <= #[trigger] base[i] <= 'z' || '0'
        <= base[i] <= '9' || base[i] == '_') by {
        if i >= 2 {
            assert(base[i] == bin_char(kept[i - 2]));
        }
    }
}

/// Whatever a fixture is called, its bin has a name that cargo and every file system
/// take.
pub proof fn law_a_bin_name_is_plain(relative: Seq<char>)
    ensures
        is_plain_name(bin_of(relative)),
{
    reveal_strlit("_");
    lemma_base_is_plain(relative);
    let hash = fnv(encode_utf8(relative)) as nat;
    lemma_hex_digits(hash, 16);
    let base = bin_base(relative);
    let name = bin_of(relative);
    assert forall|i: int| 0 <= i < name.len() implies ('a' <= #[trigger] name[i] <= 'z' || '0'
        <= name[i] <= '9' || name[i] == '_') by {
        if i < base.len() {
            assert(name[i] == base[i]);
        } else if i > base.len() {
            assert(name[i] == hex(hash, 16)[i - base.len() - 1]);
        }
    }
    assert(name[0] == base[0]);
}

/// Names that are kept apart by number are plain as well, and no two of them are the
/// same.
pub proof fn law_numbered_bin_names_are_plain(relatives: Seq<Seq<char>>, names: Seq<Seq<char>>)
    requires
        are_bin_names(relatives, names),
    ensures
        forall|i: int| 0 <= i < names.len() ==> is_plain_name(#[trigger] names[i]),
        names.no_duplicates(),
{
    reveal_strlit("_");
    assert forall|i: int| 0 <= i < names.len() implies is_plain_name(#[trigger] names[i]) by {
        let base = bin_base(relatives[i]);
        let name = names[i];
        lemma_base_is_plain(relatives[i]);
        let n = choose|n: nat|
            1 <= n && #[trigger] candidate(base, n) == name && (forall|m: nat|
                1 <= m < n ==> names.take(i).contains(#[trigger] candidate(base, m)));
        lemma_decimal_digits(n);
        assert forall|j: int| 0 <= j < name.len() implies ('a' <= #[trigger] name[j] <= 'z' || '0'
            <= name[j] <= '9' || name[j] == '_') by {
            if j < base.len() {
                assert(name[j] == base[j]);
            } else if j > base.len() {
                assert(name[j] == decimal(n)[j - base.len() - 1]);
            }
        }
        assert(name[0] == base[0]);
    }
    assert forall|i: int, j: int| 0 <= i < j < names.len() implies names[i] != names[j] by {
        assert(is_next_name(names.take(j), bin_base(relatives[j]), names[j]));
        assert(names.take(j)[i] == names[i]);
    }
}

/// A package name makes one path component, whatever it holds.
pub proof fn law_a_package_name_is_one_component(name: Seq<char>)
    requires
        name.len() > 0,
    ensures
        is_name(sanitized(name)),
{
    let out = sanitized(name);
    assert forall|i: int| 0 <= i < out.len() implies #[trigger] out[i] != '/' && out[i] != '.' by {
        assert(out[i] == component_char(name[i]));
    }
    lemma_is_name(out);
}

proof fn lemma_scratch_names()
    ensures
        is_name("nocompile"@),
        is_name("project"@),
        is_name("target"@),
        is_name("Cargo.toml"@),
        is_name("src"@),
        is_name("bin"@),
        "project"@ != "target"@,
{
    reveal_strlit("nocompile");
    reveal_strlit("project");
    reveal_strlit("target");
    reveal_strlit("Cargo.toml");
    reveal_strlit("src");
    reveal_strlit("bin");
    lemma_is_name("nocompile"@);
    lemma_is_name("project"@);
    lemma_is_name("target"@);
    lemma_is_name("Cargo.toml"@);
    lemma_is_name("src"@);
    lemma_is_name("bin"@);
    assert("project"@.len() != "target"@.len());
}

/// The scratch project lives in a directory of its own below the outer target directory,
/// one for each host crate; its sources and its manifest are in the project, and it
/// builds into a target directory beside the project, which the outer build does not own.
pub proof fn law_the_scratch_project_keeps_to_itself(
    manifest_dir: Seq<char>,
    host: Seq<char>,
    env: Surroundings,
    bin: Seq<char>,
)
    requires
        host.len() > 0,
        is_plain_name(bin),
    ensures
        ({
            let outer = components(outer_target(manifest_dir, env));
            let places = places_under(scratch_root(manifest_dir, host, env));
            let root = outer.push(Part::Name("nocompile"@)).push(Part::Name(sanitized(host)));
            let project = root.push(Part::Name("project"@));
            &&& components(places.root) == root
            &&& components(places.project) == project
            &&& components(places.target) == root.push(Part::Name("target"@))
            &&& components(places.target) != project
            &&& components(places.target) != outer
            &&& components(manifest_in(places)) == project.push(Part::Name("Cargo.toml"@))
            &&& components(bin_path_in(places, bin)) == project.push(Part::Name("src"@)).push(
                Part::Name("bin"@),
            ).push(Part::Name(bin + ".rs"@))
        }),
{
    lemma_scratch_names();
    let outer = outer_target(manifest_dir, env);
    let ours = path_join(outer, "nocompile"@);
    let places = places_under(scratch_root(manifest_dir, host, env));
    law_a_package_name_is_one_component(host);
    law_a_joined_name_is_one_more_component(outer, "nocompile"@);
    law_a_joined_name_is_one_more_component(ours, sanitized(host));
    law_a_joined_name_is_one_more_component(places.root, "project"@);
    law_a_joined_name_is_one_more_component(places.root, "target"@);
    law_a_joined_name_is_one_more_component(places.project, "Cargo.toml"@);
    law_a_joined_name_is_one_more_component(places.project, "src"@);
    law_a_joined_name_is_one_more_component(path_join(places.project, "src"@), "bin"@);
    let file = bin + ".rs"@;
    assert(is_name(file)) by {
        reveal_strlit(".rs");
        assert forall|i: int| 0 <= i < file.len() implies file[i] != '/' by {
            if i < bin.len() {
                assert(file[i] == bin[i]);
            }
        }
        assert(file[0] == bin[0]);
        lemma_is_name(file);
    }
    law_a_joined_name_is_one_more_component(bin_dir_in(places), file);
    assert(components(places.target).last() != components(places.project).last());
    assert(components(places.target).len() != components(outer).len());
}

/// The manifest declares an empty workspace, which keeps the project out of the host's,
/// and switches off the discovery of bins, which keeps out what an earlier run left
/// behind.
pub proof fn law_the_manifest_stands_alone(
    edition: Seq<char>,
    deps: Seq<(Seq<char>, Seq<char>)>,
    raw: Seq<Seq<char>>,
    bins: Seq<Seq<char>>,
)
    ensures
        has_text(manifest_text(edition, deps, raw, bins), "\n[workspace]\n\n"@),
        has_text(manifest_text(edition, deps, raw, bins), "\nautobins = false\n"@),
{
    let text = manifest_text(edition, deps, raw, bins);
    reveal_strlit(
        "# Generated by nocompile. Edits are overwritten on every run.\n[workspace]\n\n[package]\nname = \"",
    );
    reveal_strlit("\n[workspace]\n\n");
    reveal_strlit("\npublish = false\nautobins = false\n\n[dependencies]\n");
    reveal_strlit("\nautobins = false\n");
    let at: int = 61;
    assert(text.subrange(at, at + "\n[workspace]\n\n"@.len()) =~= "\n[workspace]\n\n"@);
    assert(occurs_at(text, "\n[workspace]\n\n"@, at));
    let last = "\npublish = false\nautobins = false\n\n[dependencies]\n"@;
    let at = manifest_head(edition).len() - last.len() + 16;
    assert(text.subrange(at, at + "\nautobins = false\n"@.len()) =~= "\nautobins = false\n"@);
    assert(occurs_at(text, "\nautobins = false\n"@, at));
}

/// One dependency, as it stands in the manifest.
pub open spec fn dependency_line(dep: (Seq<char>, Seq<char>)) -> Seq<char> {
    toml_name(dep.0) + " = { path = "@ + toml_quoted(dep.1) + " }\n"@
}

/// One bin target, as it stands in the manifest.
pub open spec fn bin_table(bin: Seq<char>) -> Seq<char> {
    "\n[[bin]]\nname = "@ + toml_quoted(bin) + "\npath = "@ + toml_quoted(bin_source(bin)) + "\n"@
}

proof fn lemma_dependency_lines(deps: Seq<(Seq<char>, Seq<char>)>, i: int) -> (r: (
    Seq<char>,
    Seq<char>,
))
    requires
        0 <= i < deps.len(),
    ensures
        dependency_lines(deps) == r.0 + dependency_line(deps[i]) + r.1,
    decreases deps.len(),
{
    let rest = deps.drop_first();
    if i == 0 {
        assert(dependency_lines(deps) =~= seq![] + dependency_line(deps[0]) + dependency_lines(
            rest,
        ));
        (seq![], dependency_lines(rest))
    } else {
        let (front, back) = lemma_dependency_lines(rest, i - 1);
        assert(dependency_lines(deps) =~= (dependency_line(deps[0]) + front) + dependency_line(
            deps[i],
        ) + back);
        (dependency_line(deps[0]) + front, back)
    }
}

proof fn lemma_bin_tables(bins: Seq<Seq<char>>, i: int) -> (r: (Seq<char>, Seq<char>))
    requires
        0 <= i < bins.len(),
    ensures
        bin_tables(bins) == r.0 + bin_table(bins[i]) + r.1,
    decreases bins.len(),
{
    let rest = bins.drop_first();
    if i == 0 {
        assert(bin_tables(bins) =~= seq![] + bin_table(bins[0]) + bin_tables(rest));
        (seq![], bin_tables(rest))
    } else {
        let (front, back) = lemma_bin_tables(rest, i - 1);
        assert(bin_tables(bins) =~= (bin_table(bins[0]) + front) + bin_table(bins[i]) + back);
        (bin_table(bins[0]) + front, back)
    }
}

/// The manifest declares every dependency it is given.
pub proof fn law_the_manifest_declares_every_dependency(
    edition: Seq<char>,
    deps: Seq<(Seq<char>, Seq<char>)>,
    raw: Seq<Seq<char>>,
    bins: Seq<Seq<char>>,
    i: int,
)
    requires
        0 <= i < deps.len(),
    ensures
        has_text(manifest_text(edition, deps, raw, bins), dependency_line(deps[i])),
{
    let (front, back) = lemma_dependency_lines(deps, i);
    let before_it = manifest_head(edition) + front;
    let after_it = back + "\n"@ + bin_tables(bins) + raw_lines(raw);
    assert(manifest_text(edition, deps, raw, bins) =~= before_it + dependency_line(deps[i])
        + after_it);
    lemma_has_text(before_it, dependency_line(deps[i]), after_it);
}

/// The manifest declares every bin it is given.
pub proof fn law_the_manifest_declares_every_bin(
    edition: Seq<char>,
    deps: Seq<(Seq<char>, Seq<char>)>,
    raw: Seq<Seq<char>>,
    bins: Seq<Seq<char>>,
    i: int,
)
    requires
        0 <= i < bins.len(),
    ensures
        has_text(manifest_text(edition, deps, raw, bins), bin_table(bins[i])),
{
    let (front, back) = lemma_bin_tables(bins, i);
    let before_it = manifest_head(edition) + dependency_lines(deps) + "\n"@ + front;
    let after_it = back + raw_lines(raw);
    assert(manifest_text(edition, deps, raw, bins) =~= before_it + bin_table(bins[i]) + after_it);
    lemma_has_text(before_it, bin_table(bins[i]), after_it);
}

/// The character a short escape stands for.
pub open spec fn toml_escape(c: char) -> Option<char> {
    if c == '"' || c == '\\' {
        Some(c)
    } else if c == 'n' {
        Some('\n')
    } else if c == 'r' {
        Some('\r')
    } else if c == 't' {
        Some('\t')
    } else {
        None
    }
}

/// What a reader of TOML makes of a basic string past its opening quote: what the
/// string says, and what stands behind its closing quote.
pub open spec fn toml_read(s: Seq<char>) -> Option<(Seq<char>, Seq<char>)>
    decreases s.len(),
{
    if s.len() == 0 {
        None
    } else if s[0] == '"' {
        Some((seq![], s.skip(1)))
    } else if s[0] != '\\' {
        if (s[0] as u32) < 0x20 {
            None
        } else {
            match toml_read(s.skip(1)) {
                Some((value, rest)) => Some((seq![s[0]] + value, rest)),
                None => None,
            }
        }
    } else if s.len() >= 6 && s[1] == 'u' {
        let code = 4096 * hex_digit(s[2]) + 256 * hex_digit(s[3]) + 16 * hex_digit(s[4])
            + hex_digit(s[5]);
        match toml_read(s.skip(6)) {
            Some((value, rest)) => Some((seq![(code as u32) as char] + value, rest)),
            None => None,
        }
    } else if s.len() >= 2 && toml_escape(s[1]) is Some {
        match toml_read(s.skip(2)) {
            Some((value, rest)) => Some((seq![toml_escape(s[1])->0] + value, rest)),
            None => None,
        }
    } else {
        None
    }
}

/// A quoted text reads back as itself, whatever it holds and whatever follows: no
/// value can end its string early.
pub proof fn law_a_quoted_text_reads_back(value: Seq<char>, rest: Seq<char>)
    ensures
        toml_quoted(value) + rest == seq!['"'] + (toml_body(value) + seq!['"'] + rest),
        toml_read(toml_body(value) + seq!['"'] + rest) == Some((value, rest)),
    decreases value.len(),
{
    let s = toml_body(value) + seq!['"'] + rest;
    assert(toml_quoted(value) + rest =~= seq!['"'] + s);
    if value.len() == 0 {
        assert(value =~= seq![]);
        assert(s.skip(1) =~= rest);
    } else {
        let c = value[0];
        let more = value.drop_first();
        let tail = toml_body(more) + seq!['"'] + rest;
        law_a_quoted_text_reads_back(more, rest);
        let here = toml_char(c);
        assert(s =~= here + tail);
        assert(s.skip(here.len() as int) =~= tail);
        assert(value =~= seq![c] + more);
        assert forall|i: int| 0 <= i < here.len() implies s[i] == here[i] by {}
        if c == '"' || c == '\\' || c == '\n' || c == '\r' || c == '\t' {
            assert(s[0] == here[0] && s[1] == here[1]);
        } else if (c as u32) < 0x20 {
            assert(s[0] == here[0] && s[1] == here[1] && s[2] == here[2] && s[3] == here[3] && s[4]
                == here[4] && s[5] == here[5]);
            let n: u32 = c as u32;
            let high = (n / 16) as nat;
            let low = (n % 16) as nat;
            assert(hex_digit(hex_char(high, 65)) == high);
            assert(hex_digit(hex_char(low, 65)) == low);
            assert(hex_digit('0') == 0);
            assert(16 * high + low == n);
            vstd::utf8::char_u32_cast(c, n);
        } else {
            assert(s[0] == here[0]);
        }
    }
}

// ---------------------------------------------------------------------------
// Where the scratch project is, and what its manifest says.
// ---------------------------------------------------------------------------

/// The outer target directory is what the variable says, seen from the current directory
/// where it is relative; without the variable it is the first directory above the crate
/// that is marked as cargo's, and without one `target` beside the manifest.
pub proof fn law_where_the_outer_target_directory_is(manifest_dir: Seq<char>, env: Surroundings)
    ensures
        env.target_dir is Some && env.current_dir is Some ==> outer_target(manifest_dir, env)
            == lexical_path(env.current_dir->0, env.target_dir->0),
        env.target_dir is Some && env.target_dir->0.len() > 0 && env.target_dir->0[0] == '/'
            ==> outer_target(manifest_dir, env) == render(fold(components(env.target_dir->0))),
        env.target_dir is None && first_marked(env.ancestors) is Some ==> outer_target(
            manifest_dir,
            env,
        ) == first_marked(env.ancestors)->0,
        env.target_dir is None && first_marked(env.ancestors) is None ==> outer_target(
            manifest_dir,
            env,
        ) == path_join(manifest_dir, "target"@),
{
}

/// What a fixture is called is what its bin is called, in small letters, with an underscore
/// for whatever else there is, between an opening and sixteen digits that depend on all of
/// its path.
pub proof fn law_a_bin_is_called_like_its_fixture(stem: Seq<char>, i: int)
    requires
        0 <= i < stem.len(),
    ensures
        ({
            let bin = bin_of(stem + ".rs"@);
            &&& bin.len() == stem.len() + 19
            &&& bin.take(2) == "f_"@
            &&& bin[stem.len() + 2int] == '_'
            &&& 'a' <= stem[i] <= 'z' || '0' <= stem[i] <= '9' || stem[i] == '_' ==> bin[i + 2]
                == stem[i]
            &&& 'A' <= stem[i] <= 'Z' ==> bin[i + 2] as u32 == stem[i] as u32 + 32
            &&& !('a' <= stem[i] <= 'z' || '0' <= stem[i] <= '9' || 'A' <= stem[i] <= 'Z')
                ==> bin[i + 2] == '_'
            &&& bin.skip(stem.len() + 3int) == hex(fnv(encode_utf8(stem + ".rs"@)) as nat, 16)
        }),
{
    reveal_strlit(".rs");
    reveal_strlit("f_");
    reveal_strlit("_");
    let relative = stem + ".rs"@;
    let bin = bin_of(relative);
    let hash = hex(fnv(encode_utf8(relative)) as nat, 16);
    assert(relative.subrange(relative.len() - 3, relative.len() as int) =~= ".rs"@);
    assert(without_rs(relative) =~= stem);
    lemma_hex_len(fnv(encode_utf8(relative)) as nat, 16);
    assert(bin =~= "f_"@ + bin_sanitized(relative) + "_"@ + hash);
    assert(bin[i + 2] == bin_char(stem[i]));
    assert(bin.take(2) =~= "f_"@);
    assert(bin.skip(stem.len() + 3int) =~= hash);
}

proof fn lemma_hex_len(n: nat, width: nat)
    ensures
        hex(n, width).len() == width,
    decreases width,
{
    if width > 0 {
        lemma_hex_len(n / 16, (width - 1) as nat);
    }
}

/// The digits of a bin's name are those of a hash that every byte of the path goes into, in
/// order.
pub proof fn law_every_byte_goes_into_the_hash(bytes: Seq<u8>, last: u8)
    ensures
        fnv(seq![]) == 0xcbf29ce484222325u64,
        fnv(bytes.push(last)) == (fnv(bytes) ^ (last as u64)).wrapping_mul(0x100000001b3u64),
{
    assert(bytes.push(last).drop_last() =~= bytes);
}

/// The manifest of a project of nothing says what it says of the project, with the edition
/// it is given, and nothing else.
pub proof fn law_the_manifest_says_nothing_else(edition: Seq<char>)
    ensures
        manifest_text(edition, seq![], seq![], seq![])
            == "# Generated by nocompile. Edits are overwritten on every run.\n[workspace]\n\n[package]\nname = \"nocompile-scratch\"\nversion = \"0.0.0\"\nedition = "@
            + toml_quoted(edition) + "\npublish = false\nautobins = false\n\n[dependencies]\n\n"@,
{
    lemma_manifest_head(edition);
    let head = manifest_head(edition);
    let none = Seq::<char>::empty();
    assert(dependency_lines(seq![]) =~= none);
    assert(bin_tables(seq![]) =~= none);
    assert(raw_lines(seq![]) =~= none);
    assert(manifest_text(edition, seq![], seq![], seq![]) =~= head + "\n"@);
    lemma_head_end();
    assert(head + "\n"@ =~= manifest_text(edition, seq![], seq![], seq![]));
}

/// One more dependency adds its line, one more bin its table, and one more thing to append
/// that, each behind those before it and nothing else.
pub proof fn law_the_manifest_grows_by_what_is_added(
    edition: Seq<char>,
    deps: Seq<(Seq<char>, Seq<char>)>,
    dep: (Seq<char>, Seq<char>),
    raw: Seq<Seq<char>>,
    line: Seq<char>,
    bins: Seq<Seq<char>>,
    bin: Seq<char>,
)
    ensures
        manifest_text(edition, deps.push(dep), seq![], seq![]) == manifest_text(
            edition,
            deps,
            seq![],
            seq![],
        ).drop_last() + (toml_name(dep.0) + " = { path = "@ + toml_quoted(dep.1) + " }\n"@) + "\n"@,
        manifest_text(edition, deps, seq![], bins.push(bin)) == manifest_text(
            edition,
            deps,
            seq![],
            bins,
        ) + ("\n[[bin]]\nname = "@ + toml_quoted(bin) + "\npath = "@ + toml_quoted(
            "src/bin/"@ + bin + ".rs"@,
        ) + "\n"@),
        manifest_text(edition, deps, raw.push(line), bins) == manifest_text(
            edition,
            deps,
            raw,
            bins,
        ) + ("\n"@ + trim_end(line) + "\n"@),
{
    lemma_manifest_deps(edition, deps, dep);
    lemma_manifest_bins(edition, deps, bins, bin);
    lemma_manifest_raw(edition, deps, raw, line, bins);
}

proof fn lemma_manifest_deps(
    edition: Seq<char>,
    deps: Seq<(Seq<char>, Seq<char>)>,
    dep: (Seq<char>, Seq<char>),
)
    ensures
        manifest_text(edition, deps.push(dep), seq![], seq![]) == manifest_text(
            edition,
            deps,
            seq![],
            seq![],
        ).drop_last() + (toml_name(dep.0) + " = { path = "@ + toml_quoted(dep.1) + " }\n"@) + "\n"@,
{
    reveal_strlit("\n");
    lemma_dependency_lines_push(deps, dep);
    let head = manifest_head(edition);
    let none = Seq::<char>::empty();
    let entry = toml_name(dep.0) + " = { path = "@ + toml_quoted(dep.1) + " }\n"@;
    assert(bin_tables(seq![]) =~= none);
    assert(raw_lines(seq![]) =~= none);
    assert(dependency_lines(deps.push(dep)) =~= dependency_lines(deps) + entry);
    let short = manifest_text(edition, deps, seq![], seq![]);
    assert(short =~= head + dependency_lines(deps) + "\n"@);
    assert(short.drop_last() =~= head + dependency_lines(deps));
    assert(manifest_text(edition, deps.push(dep), seq![], seq![]) =~= head + (dependency_lines(deps)
        + entry) + "\n"@);
}

proof fn lemma_manifest_bins(
    edition: Seq<char>,
    deps: Seq<(Seq<char>, Seq<char>)>,
    bins: Seq<Seq<char>>,
    bin: Seq<char>,
)
    ensures
        manifest_text(edition, deps, seq![], bins.push(bin)) == manifest_text(
            edition,
            deps,
            seq![],
            bins,
        ) + ("\n[[bin]]\nname = "@ + toml_quoted(bin) + "\npath = "@ + toml_quoted(
            "src/bin/"@ + bin + ".rs"@,
        ) + "\n"@),
{
    lemma_bin_tables_push(bins, bin);
    let front = manifest_head(edition) + dependency_lines(deps) + "\n"@;
    let none = Seq::<char>::empty();
    let table = "\n[[bin]]\nname = "@ + toml_quoted(bin) + "\npath = "@ + toml_quoted(
        "src/bin/"@ + bin + ".rs"@,
    ) + "\n"@;
    assert(raw_lines(seq![]) =~= none);
    assert(bin_tables(bins.push(bin)) =~= bin_tables(bins) + table);
    assert(manifest_text(edition, deps, seq![], bins) =~= front + bin_tables(bins));
    assert(manifest_text(edition, deps, seq![], bins.push(bin)) =~= front + (bin_tables(bins)
        + table));
}

proof fn lemma_manifest_raw(
    edition: Seq<char>,
    deps: Seq<(Seq<char>, Seq<char>)>,
    raw: Seq<Seq<char>>,
    line: Seq<char>,
    bins: Seq<Seq<char>>,
)
    ensures
        manifest_text(edition, deps, raw.push(line), bins) == manifest_text(
            edition,
            deps,
            raw,
            bins,
        ) + ("\n"@ + trim_end(line) + "\n"@),
{
    lemma_raw_lines_push(raw, line);
    let front = manifest_head(edition) + dependency_lines(deps) + "\n"@ + bin_tables(bins);
    let more = "\n"@ + trim_end(line) + "\n"@;
    assert(raw_lines(raw.push(line)) =~= raw_lines(raw) + more);
    assert(manifest_text(edition, deps, raw, bins) == front + raw_lines(raw));
    assert(front + (raw_lines(raw) + more) =~= (front + raw_lines(raw)) + more);
}

proof fn lemma_manifest_head(edition: Seq<char>)
    ensures
        manifest_head(edition)
            == "# Generated by nocompile. Edits are overwritten on every run.\n[workspace]\n\n[package]\nname = \"nocompile-scratch\"\nversion = \"0.0.0\"\nedition = "@
            + toml_quoted(edition) + "\npublish = false\nautobins = false\n\n[dependencies]\n"@,
{
    reveal_strlit(
        "# Generated by nocompile. Edits are overwritten on every run.\n[workspace]\n\n[package]\nname = \"",
    );
    reveal_strlit("nocompile-scratch");
    reveal_strlit("\"\nversion = \"0.0.0\"\nedition = ");
    reveal_strlit(
        "# Generated by nocompile. Edits are overwritten on every run.\n[workspace]\n\n[package]\nname = \"nocompile-scratch\"\nversion = \"0.0.0\"\nedition = ",
    );
    assert("# Generated by nocompile. Edits are overwritten on every run.\n[workspace]\n\n[package]\nname = \""@
        + CRATE_NAME@ + "\"\nversion = \"0.0.0\"\nedition = "@
        =~= "# Generated by nocompile. Edits are overwritten on every run.\n[workspace]\n\n[package]\nname = \"nocompile-scratch\"\nversion = \"0.0.0\"\nedition = "@);
}

proof fn lemma_head_end()
    ensures
        "\npublish = false\nautobins = false\n\n[dependencies]\n"@ + "\n"@
            == "\npublish = false\nautobins = false\n\n[dependencies]\n\n"@,
{
    reveal_strlit("\n");
    reveal_strlit("\npublish = false\nautobins = false\n\n[dependencies]\n");
    reveal_strlit("\npublish = false\nautobins = false\n\n[dependencies]\n\n");
    assert("\npublish = false\nautobins = false\n\n[dependencies]\n"@ + "\n"@
        =~= "\npublish = false\nautobins = false\n\n[dependencies]\n\n"@);
}

proof fn lemma_dependency_lines_push(deps: Seq<(Seq<char>, Seq<char>)>, dep: (Seq<char>, Seq<char>))
    ensures
        dependency_lines(deps.push(dep)) == dependency_lines(deps) + toml_name(dep.0)
            + " = { path = "@ + toml_quoted(dep.1) + " }\n"@,
    decreases deps.len(),
{
    let more = deps.push(dep);
    if deps.len() > 0 {
        lemma_dependency_lines_push(deps.drop_first(), dep);
        assert(more.drop_first() =~= deps.drop_first().push(dep));
        assert(more[0] == deps[0]);
    } else {
        assert(more.drop_first() =~= seq![]);
        assert(dependency_lines(more.drop_first()) =~= seq![]);
    }
    assert(dependency_lines(more) =~= dependency_lines(deps) + toml_name(dep.0) + " = { path = "@
        + toml_quoted(dep.1) + " }\n"@);
}

proof fn lemma_bin_tables_push(bins: Seq<Seq<char>>, bin: Seq<char>)
    ensures
        bin_tables(bins.push(bin)) == bin_tables(bins) + "\n[[bin]]\nname = "@ + toml_quoted(bin)
            + "\npath = "@ + toml_quoted("src/bin/"@ + bin + ".rs"@) + "\n"@,
    decreases bins.len(),
{
    let more = bins.push(bin);
    if bins.len() > 0 {
        lemma_bin_tables_push(bins.drop_first(), bin);
        assert(more.drop_first() =~= bins.drop_first().push(bin));
        assert(more[0] == bins[0]);
    } else {
        assert(more.drop_first() =~= seq![]);
        assert(bin_tables(more.drop_first()) =~= seq![]);
    }
    assert(bin_tables(more) =~= bin_tables(bins) + "\n[[bin]]\nname = "@ + toml_quoted(bin)
        + "\npath = "@ + toml_quoted("src/bin/"@ + bin + ".rs"@) + "\n"@);
}

proof fn lemma_raw_lines_push(raw: Seq<Seq<char>>, line: Seq<char>)
    ensures
        raw_lines(raw.push(line)) == raw_lines(raw) + "\n"@ + trim_end(line) + "\n"@,
    decreases raw.len(),
{
    let more = raw.push(line);
    if raw.len() > 0 {
        lemma_raw_lines_push(raw.drop_first(), line);
        assert(more.drop_first() =~= raw.drop_first().push(line));
        assert(more[0] == raw[0]);
    } else {
        assert(more.drop_first() =~= seq![]);
        assert(raw_lines(more.drop_first()) =~= seq![]);
    }
    assert(raw_lines(more) =~= raw_lines(raw) + "\n"@ + trim_end(line) + "\n"@);
}

/// The scratch directory of a crate goes by the crate's name: letters, digits, dashes and
/// underscores stay, and anything else is an underscore.
pub proof fn law_a_scratch_directory_is_named_like_its_crate(name: Seq<char>, i: int)
    requires
        0 <= i < name.len(),
    ensures
        sanitized(name).len() == name.len(),
        'a' <= name[i] <= 'z' || 'A' <= name[i] <= 'Z' || '0' <= name[i] <= '9' || name[i] == '-'
            || name[i] == '_' ==> sanitized(name)[i] == name[i],
        !('a' <= name[i] <= 'z' || 'A' <= name[i] <= 'Z' || '0' <= name[i] <= '9' || name[i] == '-')
            ==> sanitized(name)[i] == '_',
{
}

/// A name stands bare in a manifest if it is made of letters, digits, dashes and
/// underscores, and is quoted otherwise.
pub proof fn law_only_a_plain_name_stands_bare(name: Seq<char>)
    ensures
        ({
            let plain = name.len() > 0 && forall|i: int|
                0 <= i < name.len() ==> ('a' <= #[trigger] name[i] <= 'z' || 'A' <= name[i] <= 'Z'
                    || '0' <= name[i] <= '9' || name[i] == '-' || name[i] == '_');
            &&& plain ==> toml_name(name) == name
            &&& !plain ==> toml_name(name) == toml_quoted(name)
        }),
{
    let plain = name.len() > 0 && forall|i: int|
        0 <= i < name.len() ==> ('a' <= #[trigger] name[i] <= 'z' || 'A' <= name[i] <= 'Z' || '0'
            <= name[i] <= '9' || name[i] == '-' || name[i] == '_');
    if is_bare(name) {
        assert forall|i: int| 0 <= i < name.len() implies ('a' <= #[trigger] name[i] <= 'z' || 'A'
            <= name[i] <= 'Z' || '0' <= name[i] <= '9' || name[i] == '-' || name[i] == '_') by {
            assert(is_ascii_alphanumeric(name[i]) || name[i] == '-' || name[i] == '_');
        }
    }
    if plain {
        assert forall|i: int| 0 <= i < name.len() implies (is_ascii_alphanumeric(
            #[trigger] name[i],
        ) || name[i] == '-' || name[i] == '_') by {}
    }
}

} // verus!

//! Machine-specific paths, and the placeholders that stand for them.
//!
//! Every substitution is something a golden can no longer distinguish, so the
//! list is short and closed: the scratch project, the host crate, the cargo home
//! and its registry, the toolchain's own source, and each declared dependency.
//! Every prefix is anchored on a path component boundary, so a sibling checkout
//! at `../my-crate-helper` is not rewritten to `$MY_CRATE-helper`.
use crate::text::{
    after, ascii_alphanumeric, ascii_upper, before, chars_of, copy_of, count_leading,
    count_trailing, find, has_prefix, has_text, is_apart, is_ascii_alphanumeric, is_digit,
    is_frame, is_hex, is_unframed, leading, lemma_absent, lemma_find, lemma_find_framed,
    lemma_found_framed, lemma_leading, lemma_leading_is, lemma_occurs_framed, lemma_stands_framed,
    lemma_trailing, lemma_trailing_is, occurs_at, position, push_chars, push_text, starts_with,
    string_of, trailing, upper, Class,
};
use vstd::prelude::*;
use vstd::slice::slice_subrange;

verus! {

/// Placeholder for the host crate's manifest directory.
pub const DIR: &'static str = "$DIR";

/// Placeholder for the harness's own scratch project.
pub const SCRATCH: &'static str = "$SCRATCH";

/// Placeholder for an unpacked registry source directory.
pub const CARGO_REGISTRY: &'static str = "$CARGO_REGISTRY";

/// Placeholder for `CARGO_HOME` itself.
pub const CARGO_HOME: &'static str = "$CARGO_HOME";

/// Placeholder for the toolchain's own source, wherever it is unpacked.
pub const RUST: &'static str = "$RUST";

/// Placeholder for the generated crate a fixture is compiled as.
pub const CRATE: &'static str = "$CRATE";

/// Placeholder for the count of implementors rustc chose not to list.
pub const OTHERS: &'static str = "$N";

/// What `char::is_alphanumeric` answers.
pub uninterp spec fn unicode_alphanumeric(c: char) -> bool;

/// `char::is_alphanumeric`, which answers whether a character is alphabetic or
/// numeric in Unicode. The tables behind it are part of `std`, so the answer is a
/// function of the character alone; it is named here and not described.
pub assume_specification[ char::is_alphanumeric ](c: char) -> (r: bool)
    ensures
        r == unicode_alphanumeric(c),
;

/// Whether a character is a letter or a digit: in ASCII the plain set, elsewhere
/// what Unicode says.
pub open spec fn is_alphanumeric(c: char) -> bool {
    if (c as u32) < 0x80 {
        is_ascii_alphanumeric(c)
    } else {
        unicode_alphanumeric(c)
    }
}

fn alphanumeric(c: char) -> (r: bool)
    ensures
        r == is_alphanumeric(c),
{
    if (c as u32) < 0x80 {
        ascii_alphanumeric(c)
    } else {
        c.is_alphanumeric()
    }
}

// ---------------------------------------------------------------------------
// Directories.
// ---------------------------------------------------------------------------

/// Whether the character before a match lets it start a path: nothing at all, or
/// a character that cannot be part of one.
pub open spec fn may_start(before: Option<char>) -> bool {
    match before {
        None => true,
        Some(c) => !(is_alphanumeric(c) || c == '-' || c == '_' || c == '.' || c == '/' || c
            == '\\'),
    }
}

/// Whether the character after a match lets it end a directory: nothing at all,
/// a separator, the `:` before a line number, or the punctuation that cargo and
/// rustc wrap paths in.
pub open spec fn may_end(after: Option<char>) -> bool {
    match after {
        None => true,
        Some(c) => c == '/' || c == '\\' || c == ':' || c == '`' || c == '"' || c == '\'' || c
            == ')' || c == ',' || c == ';',
    }
}

/// The character at `i`, where there is one.
pub open spec fn char_at(s: Seq<char>, i: int) -> Option<char> {
    if 0 <= i < s.len() {
        Some(s[i])
    } else {
        None
    }
}

/// Whether the text of length `len` at `k` in `line` is a whole path prefix
/// rather than part of a longer name.
pub open spec fn anchored(line: Seq<char>, k: int, len: int) -> bool {
    may_end(char_at(line, k + len)) && may_start(char_at(line, k - 1))
}

/// `line` from `at` on, with every anchored `from` replaced by `to`.
pub open spec fn replace_dir_from(line: Seq<char>, from: Seq<char>, to: Seq<char>, at: int) -> Seq<
    char,
>
    decreases line.len() - at,
{
    match find(line, from, at) {
        Some(k) => if 0 <= at <= k && 0 < from.len() && k + from.len() <= line.len() {
            line.subrange(at, k) + (if anchored(line, k, from.len() as int) {
                to
            } else {
                from
            }) + replace_dir_from(line, from, to, k + from.len())
        } else {
            line.skip(at)
        },
        None => line.skip(at),
    }
}

/// `line` with the directory `from` replaced by `to`. An empty `from` names no
/// directory.
pub open spec fn dir_replaced(line: Seq<char>, from: Seq<char>, to: Seq<char>) -> Seq<char> {
    if from.len() == 0 {
        line
    } else {
        replace_dir_from(line, from, to, 0)
    }
}

/// Whether the character before a match lets it start a path.
///
/// A path character means the match landed inside a longer path, `/w` inside
/// `/opt/w/a.rs`, where it names nothing.
pub fn starts_component(before: Option<char>) -> (r: bool)
    ensures
        r == may_start(before),
{
    match before {
        None => true,
        Some(c) => !(alphanumeric(c) || c == '-' || c == '_' || c == '.' || c == '/' || c
            == '\\'),
    }
}

/// Whether the character after a match lets it end a directory.
///
/// Almost every character is legal in a file name, so asking whether one can
/// continue a path gets `My Project` wrong against `My Project 2`. Asking whether
/// it is one of the few that cargo and rustc put after a path is the answerable
/// question, and its failure mode is a missed substitution rather than a mangled
/// one.
pub fn ends_component(after: Option<char>) -> (r: bool)
    ensures
        r == may_end(after),
{
    match after {
        None => true,
        Some(c) => c == '/' || c == '\\' || c == ':' || c == '`' || c == '"' || c == '\'' || c
            == ')' || c == ',' || c == ';',
    }
}

/// The character at `i`, where there is one.
fn nth(s: &[char], i: usize) -> (r: Option<char>)
    ensures
        r == char_at(s@, i as int),
{
    if i < s.len() {
        Some(s[i])
    } else {
        None
    }
}

pub fn with_dir_replaced(line: &[char], from: &[char], to: &[char]) -> (r: Vec<char>)
    ensures
        r@ == dir_replaced(line@, from@, to@),
{
    if from.len() == 0 {
        return copy_of(line);
    }
    let mut out: Vec<char> = Vec::new();
    let mut at: usize = 0;
    let len: usize = line.len();
    loop
        invariant
            at <= len,
            len == line@.len(),
            from@.len() > 0,
            out@ + replace_dir_from(line@, from@, to@, at as int) =~= replace_dir_from(
                line@,
                from@,
                to@,
                0,
            ),
        decreases len - at,
    {
        match position(line, from, at) {
            Some(k) => {
                let previous: Option<char> = if k == 0 {
                    None
                } else {
                    nth(line, k - 1)
                };
                let anchored: bool = ends_component(nth(line, k + from.len()))
                    && starts_component(previous);
                push_chars(&mut out, slice_subrange(line, at, k));
                if anchored {
                    push_chars(&mut out, to);
                } else {
                    push_chars(&mut out, from);
                }
                at = k + from.len();
            },
            None => {
                push_chars(&mut out, after(line, at));
                return out;
            },
        }
    }
}

/// Replace the directory `from` with `to`, but only where `from` is a whole path
/// prefix rather than the start of a longer name.
///
/// A plain replacement rewrites `/w/crate` inside `/w/crate-helper`, turning a
/// sibling checkout into `$DIR-helper`: a path that is neither the real one nor a
/// portable one.
pub fn replace_dir(line: &str, from: &str, to: &str) -> (r: String)
    ensures
        r@ == dir_replaced(line@, from@, to@),
{
    let line = chars_of(line);
    let from = chars_of(from);
    let to = chars_of(to);
    let out = with_dir_replaced(line.as_slice(), from.as_slice(), to.as_slice());
    string_of(out.as_slice())
}

/// One character of a dependency's placeholder.
pub open spec fn placeholder_char(c: char) -> char {
    if c == '-' {
        '_'
    } else {
        upper(c)
    }
}

/// The placeholder for a dependency.
pub open spec fn placeholder_of(name: Seq<char>) -> Seq<char> {
    seq!['$'] + name.map_values(|c: char| placeholder_char(c))
}

/// The placeholder for a dependency, `serde-json` becoming `$SERDE_JSON`.
///
/// `a-b` and `a_b` produce the same placeholder. Declaring both is vanishingly
/// rare and the result is still portable, just ambiguous.
pub fn placeholder(name: &str) -> (r: String)
    ensures
        r@ == placeholder_of(name@),
{
    let name = chars_of(name);
    let mut out: Vec<char> = Vec::new();
    out.push('$');
    let mut i: usize = 0;
    while i < name.len()
        invariant
            i <= name@.len(),
            out@ =~= seq!['$'] + name@.take(i as int).map_values(|c: char| placeholder_char(c)),
        decreases name@.len() - i,
    {
        let c = name[i];
        out.push(
            if c == '-' {
                '_'
            } else {
                ascii_upper(c)
            },
        );
        i += 1;
    }
    assert(name@.take(i as int) =~= name@);
    string_of(out.as_slice())
}

// ---------------------------------------------------------------------------
// The toolchain's source, and the registry's.
// ---------------------------------------------------------------------------

/// Where a toolchain keeps its library source.
pub const LIBRARY_MARKER: &'static str = "/lib/rustlib/src/rust/library/";

/// Where an older toolchain keeps it.
pub const OLDER_MARKER: &'static str = "/lib/rustlib/src/rust/src/";

/// Where the path containing position `at` begins: after the last character
/// before it that cannot be inside a path.
pub open spec fn path_begin(line: Seq<char>, at: int) -> int {
    at - trailing(line.take(at), Class::PathBody)
}

/// `line` with every path up to and including `marker` replaced by `to`, which
/// is shorter than `marker`.
pub open spec fn sysroot_stripped(line: Seq<char>, marker: Seq<char>, to: Seq<char>) -> Seq<char>
    decreases line.len(),
    when to.len() < marker.len()
{
    match find(line, marker, 0) {
        Some(at) => if 0 <= path_begin(line, at) <= at && at + marker.len() <= line.len() {
            sysroot_stripped(
                line.take(path_begin(line, at)) + to + line.skip(at + marker.len()),
                marker,
                to,
            )
        } else {
            line
        },
        None => line,
    }
}

/// The length of a commit hash.
pub const COMMIT_LEN: usize = 40;

/// `line` from `at` on, with every `/rustc/<commit>/library/` replaced by `$RUST/`.
pub open spec fn commit_replaced_from(line: Seq<char>, at: int) -> Seq<char>
    decreases line.len() - at,
{
    match find(line, "/rustc/"@, at) {
        Some(k) => {
            let name = k + "/rustc/"@.len();
            let rest = line.skip(name);
            let commit = leading(rest, Class::Hex) as int;
            if !(0 <= at <= k && at < name <= line.len()) {
                line.skip(at)
            } else if commit == COMMIT_LEN && commit <= rest.len() && starts_with(
                rest.skip(commit),
                "/library/"@,
            ) {
                line.subrange(at, k) + RUST@ + seq!['/'] + commit_replaced_from(
                    line,
                    name + commit + "/library/"@.len(),
                )
            } else {
                line.subrange(at, name) + commit_replaced_from(line, name)
            }
        },
        None => line.skip(at),
    }
}

/// `line` with every toolchain source path rewritten to `$RUST`.
pub open spec fn sysroot_replaced(line: Seq<char>) -> Seq<char> {
    let to = RUST@ + seq!['/'];
    commit_replaced_from(
        sysroot_stripped(sysroot_stripped(line, LIBRARY_MARKER@, to), OLDER_MARKER@, to),
        0,
    )
}

/// Where registry sources are unpacked under `cargo_home`.
pub open spec fn registry_prefix(cargo_home: Seq<char>) -> Seq<char> {
    cargo_home.take(cargo_home.len() - trailing(cargo_home, Class::Separator)) + "/registry/src/"@
}

/// `line` from `at` on, with every `prefix` and the directory name after it
/// replaced by `$CARGO_REGISTRY/`. A name with no separator after it stays.
pub open spec fn registry_replaced_from(line: Seq<char>, prefix: Seq<char>, at: int) -> Seq<char>
    decreases line.len() - at,
{
    match find(line, prefix, at) {
        Some(k) => if 0 <= at <= k && 0 < prefix.len() && k + prefix.len() <= line.len() {
            let name = k + prefix.len();
            let slash = name + leading(line.skip(name), Class::SegmentBody);
            line.subrange(at, k) + CARGO_REGISTRY@ + seq!['/'] + registry_replaced_from(
                line,
                prefix,
                if slash < line.len() {
                    slash + 1
                } else {
                    name
                },
            )
        } else {
            line.skip(at)
        },
        None => line.skip(at),
    }
}

/// `line` with every unpacked registry source directory rewritten.
pub open spec fn registry_replaced(line: Seq<char>, cargo_home: Seq<char>) -> Seq<char> {
    registry_replaced_from(line, registry_prefix(cargo_home), 0)
}

/// Where the path containing position `at` begins.
///
/// The sysroot prefix is machine-specific all the way back to the root, so the
/// whole of it has to go, and the only way to find its start in a line of prose
/// is to walk back to something that cannot be inside a path.
pub fn path_start(line: &[char], at: usize) -> (r: usize)
    requires
        at <= line@.len(),
    ensures
        r == path_begin(line@, at as int),
        r <= at,
{
    at - count_trailing(before(line, at), Class::PathBody)
}

fn without_sysroot(line: Vec<char>, marker: &[char], to: &[char]) -> (r: Vec<char>)
    requires
        to@.len() < marker@.len(),
    ensures
        r@ == sysroot_stripped(line@, marker@, to@),
{
    let mut out: Vec<char> = line;
    loop
        invariant
            to@.len() < marker@.len(),
            sysroot_stripped(out@, marker@, to@) == sysroot_stripped(line@, marker@, to@),
        decreases out@.len(),
    {
        match position(out.as_slice(), marker, 0) {
            Some(at) => {
                assert(out.len() == out@.len());
                let start: usize = path_start(out.as_slice(), at);
                let mut next = copy_of(before(out.as_slice(), start));
                push_chars(&mut next, to);
                push_chars(&mut next, after(out.as_slice(), at + marker.len()));
                out = next;
            },
            None => {
                return out;
            },
        }
    }
}

/// Rewrite `/rustc/<commit>/library/` to `$RUST/`.
///
/// Self-delimiting, unlike the sysroot markers: the path starts at `/rustc/`, so
/// there is nothing to walk back over.
pub fn replace_rustc_commit(line: &[char]) -> (r: Vec<char>)
    ensures
        r@ == commit_replaced_from(line@, 0),
{
    let prefix = chars_of("/rustc/");
    let suffix = chars_of("/library/");
    proof {
        reveal_strlit("/rustc/");
        reveal_strlit("/library/");
    }
    let mut out: Vec<char> = Vec::new();
    let mut at: usize = 0;
    let len: usize = line.len();
    loop
        invariant
            at <= len,
            len == line@.len(),
            prefix@ == "/rustc/"@,
            suffix@ == "/library/"@,
            prefix@.len() == 7,
            suffix@.len() == 9,
            out@ + commit_replaced_from(line@, at as int) =~= commit_replaced_from(line@, 0),
        decreases len - at,
    {
        match position(line, prefix.as_slice(), at) {
            Some(k) => {
                let name: usize = k + prefix.len();
                let rest = after(line, name);
                let commit: usize = count_leading(rest, Class::Hex);
                if commit == COMMIT_LEN && has_prefix(after(rest, commit), "/library/") {
                    push_chars(&mut out, slice_subrange(line, at, k));
                    push_text(&mut out, RUST);
                    out.push('/');
                    at = name + commit + suffix.len();
                } else {
                    push_chars(&mut out, slice_subrange(line, at, name));
                    at = name;
                }
            },
            None => {
                push_chars(&mut out, after(line, at));
                return out;
            },
        }
    }
}

/// Rewrite a toolchain source path to `$RUST`.
///
/// Three shapes reach a diagnostic: a rustup toolchain, whose path carries both
/// the user's home directory and the host triple; the older `src/rust/src`
/// layout; and the `/rustc/<commit>/library` form a distributed toolchain
/// reports.
pub fn replace_sysroot(line: &[char]) -> (r: Vec<char>)
    ensures
        r@ == sysroot_replaced(line@),
{
    let mut to = chars_of(RUST);
    to.push('/');
    assert(to@ =~= RUST@ + seq!['/']);
    let library = chars_of(LIBRARY_MARKER);
    let older = chars_of(OLDER_MARKER);
    proof {
        reveal_strlit("$RUST");
        reveal_strlit("/lib/rustlib/src/rust/library/");
        reveal_strlit("/lib/rustlib/src/rust/src/");
    }
    let out = without_sysroot(copy_of(line), library.as_slice(), to.as_slice());
    let out = without_sysroot(out, older.as_slice(), to.as_slice());
    replace_rustc_commit(out.as_slice())
}

/// Rewrite `<cargo_home>/registry/src/<index>/` to `$CARGO_REGISTRY/`.
///
/// The index component carries a hash that varies by machine and by cargo
/// version, so it is consumed along with the prefix.
pub fn replace_registry_src(line: &[char], cargo_home: &[char]) -> (r: Vec<char>)
    ensures
        r@ == registry_replaced(line@, cargo_home@),
{
    let mut prefix = copy_of(
        before(cargo_home, cargo_home.len() - count_trailing(cargo_home, Class::Separator)),
    );
    push_text(&mut prefix, "/registry/src/");
    proof {
        reveal_strlit("/registry/src/");
    }
    let mut out: Vec<char> = Vec::new();
    let mut at: usize = 0;
    let len: usize = line.len();
    loop
        invariant
            at <= len,
            len == line@.len(),
            prefix@.len() > 0,
            prefix@ == registry_prefix(cargo_home@),
            out@ + registry_replaced_from(line@, prefix@, at as int) =~= registry_replaced_from(
                line@,
                prefix@,
                0,
            ),
        decreases len - at,
    {
        match position(line, prefix.as_slice(), at) {
            Some(k) => {
                push_chars(&mut out, slice_subrange(line, at, k));
                push_text(&mut out, CARGO_REGISTRY);
                out.push('/');
                let name: usize = k + prefix.len();
                let slash: usize = name + count_leading(after(line, name), Class::SegmentBody);
                at = if slash < len {
                    slash + 1
                } else {
                    name
                };
            },
            None => {
                push_chars(&mut out, after(line, at));
                return out;
            },
        }
    }
}

// ---------------------------------------------------------------------------
// What replacing a directory promises.
// ---------------------------------------------------------------------------

proof fn lemma_nothing_anchored(line: Seq<char>, from: Seq<char>, to: Seq<char>, at: int)
    requires
        0 < from.len(),
        0 <= at <= line.len(),
        forall|k: int| at <= k && occurs_at(line, from, k) ==> !anchored(line, k, from.len() as int),
    ensures
        replace_dir_from(line, from, to, at) == line.skip(at),
    decreases line.len() - at,
{
    lemma_find(line, from, at);
    if let Some(k) = find(line, from, at) {
        lemma_nothing_anchored(line, from, to, k + from.len());
        assert(line.subrange(at, k) + from + line.skip(k + from.len()) =~= line.skip(at));
    }
}

/// A directory is replaced only where it stands whole: a line in which it is nowhere
/// more than part of a longer name or a longer path stays as it is.
pub proof fn law_part_of_a_name_is_left_alone(line: Seq<char>, from: Seq<char>, to: Seq<char>)
    requires
        forall|k: int| occurs_at(line, from, k) ==> !anchored(line, k, from.len() as int),
    ensures
        dir_replaced(line, from, to) == line,
{
    if from.len() > 0 {
        lemma_nothing_anchored(line, from, to, 0);
        assert(line.skip(0) =~= line);
    }
}

/// A directory that stands whole, once, is replaced by its placeholder, and nothing
/// around it changes: what a line says no longer depends on where the directory is.
pub proof fn law_a_whole_directory_is_replaced(
    front: Seq<char>,
    from: Seq<char>,
    back: Seq<char>,
    to: Seq<char>,
)
    requires
        from.len() > 0,
        may_start(char_at(front, front.len() - 1)),
        may_end(char_at(back, 0)),
        forall|k: int| #[trigger]
            occurs_at(front + from + back, from, k) ==> k == front.len(),
    ensures
        dir_replaced(front + from + back, from, to) == front + to + back,
{
    let line = front + from + back;
    let k = front.len() as int;
    assert(line.subrange(k, k + from.len()) =~= from);
    assert(occurs_at(line, from, k));
    lemma_find(line, from, 0);
    assert(find(line, from, 0) == Some(k));
    assert(char_at(line, k + from.len()) == char_at(back, 0));
    assert(char_at(line, k - 1) == char_at(front, front.len() - 1));
    lemma_nothing_anchored(line, from, to, k + from.len());
    assert(line.subrange(0, k) =~= front);
    assert(line.skip(k + from.len()) =~= back);
}

/// Where a toolchain keeps its library source makes no difference: everything from the
/// start of the path up to and including the marker goes, whatever it is.
pub proof fn law_where_the_toolchain_is_makes_no_difference(
    front: Seq<char>,
    place: Seq<char>,
    marker: Seq<char>,
    rest: Seq<char>,
    to: Seq<char>,
)
    requires
        to.len() < marker.len(),
        forall|i: int| 0 <= i < place.len() ==> Class::PathBody.has(place[i]),
        front.len() > 0 ==> !Class::PathBody.has(front.last()),
        forall|k: int| #[trigger]
            occurs_at(front + place + marker + rest, marker, k) ==> k == front.len() + place.len(),
        !has_text(front + to + rest, marker),
    ensures
        sysroot_stripped(front + place + marker + rest, marker, to) == front + to + rest,
{
    let line = front + place + marker + rest;
    let at = (front.len() + place.len()) as int;
    assert(line.subrange(at, at + marker.len()) =~= marker);
    assert(occurs_at(line, marker, at));
    lemma_find(line, marker, 0);
    assert(find(line, marker, 0) == Some(at));
    let head = line.take(at);
    assert(head =~= front + place);
    assert forall|i: int| head.len() - place.len() <= i < head.len() implies Class::PathBody.has(
        head[i],
    ) by {
        assert(head[i] == place[i - front.len()]);
    }
    if front.len() > 0 {
        assert(head[head.len() - place.len() - 1] == front.last());
    }
    lemma_trailing_is(head, Class::PathBody, place.len());
    assert(path_begin(line, at) == front.len());
    assert(line.take(front.len() as int) =~= front);
    assert(line.skip(at + marker.len()) =~= rest);
    lemma_absent(front + to + rest, marker, 0);
    assert(sysroot_stripped(front + to + rest, marker, to) == front + to + rest);
}

/// Which commit a distributed toolchain was built from makes no difference.
pub proof fn law_the_commit_makes_no_difference(
    front: Seq<char>,
    commit: Seq<char>,
    rest: Seq<char>,
)
    requires
        commit.len() == COMMIT_LEN,
        forall|i: int| 0 <= i < commit.len() ==> is_hex(commit[i]),
        forall|k: int| #[trigger]
            occurs_at(front + "/rustc/"@ + commit + "/library/"@ + rest, "/rustc/"@, k) ==> k
                == front.len(),
    ensures
        commit_replaced_from(front + "/rustc/"@ + commit + "/library/"@ + rest, 0) == front + RUST@
            + seq!['/'] + rest,
{
    reveal_strlit("/rustc/");
    reveal_strlit("/library/");
    let line = front + "/rustc/"@ + commit + "/library/"@ + rest;
    let k = front.len() as int;
    assert(line.subrange(k, k + "/rustc/"@.len()) =~= "/rustc/"@);
    assert(occurs_at(line, "/rustc/"@, k));
    lemma_find(line, "/rustc/"@, 0);
    assert(find(line, "/rustc/"@, 0) == Some(k));
    let tail = line.skip(k + 7);
    assert(tail =~= commit + ("/library/"@ + rest));
    assert forall|i: int| 0 <= i < commit.len() implies Class::Hex.has(tail[i]) by {
        assert(tail[i] == commit[i]);
    }
    assert(tail[commit.len() as int] == '/');
    lemma_leading_is(tail, Class::Hex, commit.len());
    assert(tail.skip(commit.len() as int) =~= "/library/"@ + rest);
    assert(tail.skip(commit.len() as int).subrange(0, 9) =~= "/library/"@);
    let next = k + 7 + commit.len() + 9;
    lemma_find(line, "/rustc/"@, next);
    assert(commit_replaced_from(line, next) =~= rest);
    assert(line.subrange(0, k) =~= front);
    assert(commit_replaced_from(line, 0) =~= front + RUST@ + seq!['/'] + rest);
}

/// Where the registry's sources are unpacked makes no difference, nor does the name of
/// the index, which carries a hash.
pub proof fn law_where_the_registry_is_makes_no_difference(
    home: Seq<char>,
    front: Seq<char>,
    index: Seq<char>,
    rest: Seq<char>,
)
    requires
        forall|i: int| 0 <= i < index.len() ==> index[i] != '/',
        forall|k: int| #[trigger]
            occurs_at(
                front + registry_prefix(home) + index + seq!['/'] + rest,
                registry_prefix(home),
                k,
            ) ==> k == front.len(),
    ensures
        registry_replaced(front + registry_prefix(home) + index + seq!['/'] + rest, home) == front
            + CARGO_REGISTRY@ + seq!['/'] + rest,
{
    reveal_strlit("/registry/src/");
    let prefix = registry_prefix(home);
    let line = front + prefix + index + seq!['/'] + rest;
    let k = front.len() as int;
    assert(prefix.len() >= 14);
    assert(line.subrange(k, k + prefix.len()) =~= prefix);
    assert(occurs_at(line, prefix, k));
    lemma_find(line, prefix, 0);
    assert(find(line, prefix, 0) == Some(k));
    let tail = line.skip(k + prefix.len());
    assert(tail =~= index + (seq!['/'] + rest));
    assert forall|i: int| 0 <= i < index.len() implies Class::SegmentBody.has(tail[i]) by {
        assert(tail[i] == index[i]);
    }
    assert(tail[index.len() as int] == '/');
    lemma_leading_is(tail, Class::SegmentBody, index.len());
    let next = k + prefix.len() + index.len() + 1;
    lemma_find(line, prefix, next);
    assert(registry_replaced_from(line, prefix, next) =~= rest);
    assert(line.subrange(0, k) =~= front);
    assert(registry_replaced_from(line, prefix, 0) =~= front + CARGO_REGISTRY@ + seq!['/'] + rest);
}

// ---------------------------------------------------------------------------
// Rewriting a line in a frame.
// ---------------------------------------------------------------------------

proof fn lemma_anchored_framed(
    front: Seq<char>,
    s: Seq<char>,
    back: Seq<char>,
    k: int,
    len: int,
)
    requires
        is_frame(front, back),
        0 <= k,
        0 < len,
        k + len <= s.len(),
    ensures
        anchored(front + s + back, front.len() + k, len) == anchored(s, k, len),
{
    let whole = front + s + back;
    let n = front.len() as int;
    if k + len < s.len() {
        assert(whole[n + k + len] == s[k + len]);
    } else if back.len() > 0 {
        assert(whole[n + k + len] == back[0]);
    }
    if k > 0 {
        assert(whole[n + k - 1] == s[k - 1]);
    } else if n > 0 {
        assert(whole[n - 1] == front[n - 1]);
    }
}

/// Where a directory is not found from some place on, it stands whole nowhere from there
/// on in a frame.
proof fn lemma_unanchored_framed(
    front: Seq<char>,
    s: Seq<char>,
    back: Seq<char>,
    from: Seq<char>,
    at: int,
)
    requires
        is_frame(front, back),
        is_unframed(from),
        0 <= at,
        find(s, from, at) is None,
    ensures
        ({
            let whole = front + s + back;
            forall|k: int|
                (at == 0 || front.len() + at <= k) && occurs_at(whole, from, k) ==> !anchored(
                    whole,
                    k,
                    from.len() as int,
                )
        }),
{
    let whole = front + s + back;
    lemma_find(s, from, at);
    assert forall|k: int|
        (at == 0 || front.len() + at <= k) && occurs_at(whole, from, k) implies !anchored(
        whole,
        k,
        from.len() as int,
    ) by {
        lemma_stands_framed(front, s, back, from, k);
        assert(!occurs_at(s, from, k - front.len()));
    }
}

#[verifier::spinoff_prover]
proof fn lemma_dir_from_framed(
    front: Seq<char>,
    s: Seq<char>,
    back: Seq<char>,
    from: Seq<char>,
    to: Seq<char>,
    at: int,
)
    requires
        is_frame(front, back),
        is_unframed(from),
        0 <= at <= s.len(),
    ensures
        replace_dir_from(front + s + back, from, to, front.len() + at) == replace_dir_from(
            s,
            from,
            to,
            at,
        ) + back,
    decreases s.len() - at,
{
    let whole = front + s + back;
    let n = front.len() as int;
    match find(s, from, at) {
        Some(k) => {
            lemma_found_framed(front, s, back, from, at);
            lemma_dir_from_framed(front, s, back, from, to, k + from.len());
            lemma_anchored_framed(front, s, back, k, from.len() as int);
            assert(whole.subrange(n + at, n + k) =~= s.subrange(at, k));
            assert(replace_dir_from(whole, from, to, n + at) =~= replace_dir_from(s, from, to, at)
                + back);
        },
        None => {
            lemma_unanchored_framed(front, s, back, from, at);
            lemma_nothing_anchored(whole, from, to, n + at);
            assert(whole.skip(n + at) =~= s.skip(at) + back);
        },
    }
}

/// A directory is replaced in a frame as it is without one.
#[verifier::spinoff_prover]
pub proof fn lemma_dir_framed(
    front: Seq<char>,
    s: Seq<char>,
    back: Seq<char>,
    from: Seq<char>,
    to: Seq<char>,
)
    requires
        is_frame(front, back),
        from.len() > 0 ==> is_unframed(from),
    ensures
        dir_replaced(front + s + back, from, to) == front + dir_replaced(s, from, to) + back,
{
    let whole = front + s + back;
    let n = front.len() as int;
    if from.len() > 0 {
        match find(s, from, 0) {
            Some(k) => {
                lemma_found_framed(front, s, back, from, 0);
                lemma_dir_from_framed(front, s, back, from, to, k + from.len());
                lemma_anchored_framed(front, s, back, k, from.len() as int);
                assert(whole.subrange(0, n + k) =~= front + s.subrange(0, k));
                assert(dir_replaced(whole, from, to) =~= front + dir_replaced(s, from, to) + back);
            },
            None => {
                lemma_unanchored_framed(front, s, back, from, 0);
                lemma_nothing_anchored(whole, from, to, 0);
                assert(whole.skip(0) =~= whole);
                assert(s.skip(0) =~= s);
            },
        }
    }
}

proof fn lemma_path_begin_framed(front: Seq<char>, s: Seq<char>, back: Seq<char>, at: int)
    requires
        is_frame(front, back),
        0 <= at <= s.len(),
    ensures
        path_begin(front + s + back, front.len() + at) == front.len() + path_begin(s, at),
        0 <= path_begin(s, at) <= at,
{
    let whole = front + s + back;
    let n = front.len() as int;
    let short = s.take(at);
    let long = whole.take(n + at);
    let count = trailing(short, Class::PathBody);
    lemma_trailing(short, Class::PathBody);
    assert(long =~= front + short);
    assert forall|i: int| long.len() - count <= i < long.len() implies Class::PathBody.has(
        long[i],
    ) by {
        assert(long[i] == short[i - n]);
    }
    if count < long.len() {
        let i = long.len() - count - 1;
        if i < n {
            assert(long[i] == front[i]);
            assert(!Class::PathBody.has(' '));
        } else {
            assert(long[i] == short[i - n]);
        }
    }
    lemma_trailing_is(long, Class::PathBody, count);
}

proof fn lemma_sysroot_framed(
    front: Seq<char>,
    s: Seq<char>,
    back: Seq<char>,
    marker: Seq<char>,
    to: Seq<char>,
)
    requires
        is_frame(front, back),
        is_apart(marker),
        to.len() < marker.len(),
    ensures
        sysroot_stripped(front + s + back, marker, to) == front + sysroot_stripped(s, marker, to)
            + back,
    decreases s.len(),
{
    let whole = front + s + back;
    let n = front.len() as int;
    lemma_find_framed(front, s, back, marker, 0);
    if let Some(at) = find(s, marker, 0) {
        lemma_path_begin_framed(front, s, back, at);
        let start = path_begin(s, at);
        let next = s.take(start) + to + s.skip(at + marker.len());
        assert(whole.take(n + start) + to + whole.skip(n + at + marker.len()) =~= front + next
            + back);
        lemma_sysroot_framed(front, next, back, marker, to);
    }
}

/// Whether a commit stands at `name` is the same in a frame.
proof fn lemma_commit_here_framed(front: Seq<char>, s: Seq<char>, back: Seq<char>, name: int)
    requires
        is_frame(front, back),
        0 <= name <= s.len(),
    ensures
        ({
            let rest = s.skip(name);
            let long = (front + s + back).skip(front.len() + name);
            let count = leading(rest, Class::Hex) as int;
            &&& leading(long, Class::Hex) == count
            &&& count <= rest.len()
            &&& starts_with(long.skip(count), "/library/"@) == starts_with(
                rest.skip(count),
                "/library/"@,
            )
        }),
{
    reveal_strlit("/library/");
    let rest = s.skip(name);
    let long = (front + s + back).skip(front.len() + name);
    let count = leading(rest, Class::Hex);
    lemma_leading(rest, Class::Hex);
    assert(long =~= rest + back);
    assert forall|i: int| 0 <= i < count implies Class::Hex.has(long[i]) by {
        assert(long[i] == rest[i]);
    }
    if count < long.len() {
        if count < rest.len() {
            assert(long[count as int] == rest[count as int]);
        } else {
            assert(long[count as int] == back[0]);
        }
    }
    lemma_leading_is(long, Class::Hex, count);
    let a = rest.skip(count as int);
    assert(long.skip(count as int) =~= seq![] + a + back);
    assert(is_apart("/library/"@));
    lemma_occurs_framed(seq![], a, back, "/library/"@, 0);
}

#[verifier::spinoff_prover]
proof fn lemma_commit_from_framed(front: Seq<char>, s: Seq<char>, back: Seq<char>, at: int)
    requires
        is_frame(front, back),
        0 <= at <= s.len(),
    ensures
        commit_replaced_from(front + s + back, front.len() + at) == commit_replaced_from(s, at)
            + back,
    decreases s.len() - at,
{
    let whole = front + s + back;
    let n = front.len() as int;
    lemma_commit_words();
    lemma_find_framed(front, s, back, "/rustc/"@, at);
    match find(s, "/rustc/"@, at) {
        Some(k) => {
            let name = k + 7;
            let count = leading(s.skip(name), Class::Hex) as int;
            lemma_commit_here_framed(front, s, back, name);
            if count == COMMIT_LEN && starts_with(s.skip(name).skip(count), "/library/"@) {
                lemma_commit_from_framed(front, s, back, name + count + 9);
                assert(whole.subrange(n + at, n + k) =~= s.subrange(at, k));
            } else {
                lemma_commit_from_framed(front, s, back, name);
                assert(whole.subrange(n + at, n + name) =~= s.subrange(at, name));
            }
            assert(commit_replaced_from(whole, n + at) =~= commit_replaced_from(s, at) + back);
        },
        None => {
            assert(whole.skip(n + at) =~= s.skip(at) + back);
        },
    }
}

proof fn lemma_commit_words()
    ensures
        is_apart("/rustc/"@),
        "/rustc/"@.len() == 7,
        "/library/"@.len() == 9,
{
    reveal_strlit("/rustc/");
    reveal_strlit("/library/");
}

#[verifier::spinoff_prover]
proof fn lemma_commit_framed(front: Seq<char>, s: Seq<char>, back: Seq<char>)
    requires
        is_frame(front, back),
    ensures
        commit_replaced_from(front + s + back, 0) == front + commit_replaced_from(s, 0) + back,
{
    let whole = front + s + back;
    let n = front.len() as int;
    lemma_commit_words();
    lemma_find_framed(front, s, back, "/rustc/"@, 0);
    match find(s, "/rustc/"@, 0) {
        Some(k) => {
            let name = k + 7;
            let count = leading(s.skip(name), Class::Hex) as int;
            lemma_commit_here_framed(front, s, back, name);
            if count == COMMIT_LEN && starts_with(s.skip(name).skip(count), "/library/"@) {
                lemma_commit_from_framed(front, s, back, name + count + 9);
                assert(whole.subrange(0, n + k) =~= front + s.subrange(0, k));
            } else {
                lemma_commit_from_framed(front, s, back, name);
                assert(whole.subrange(0, n + name) =~= front + s.subrange(0, name));
            }
            assert(commit_replaced_from(whole, 0) =~= front + commit_replaced_from(s, 0) + back);
        },
        None => {
            assert(whole.skip(0) =~= whole);
            assert(s.skip(0) =~= s);
        },
    }
}

/// Where a segment ends in a frame: where it does without one, or at the end of both.
proof fn lemma_segment_framed(front: Seq<char>, s: Seq<char>, back: Seq<char>, name: int)
    requires
        is_frame(front, back),
        0 <= name <= s.len(),
    ensures
        ({
            let count = leading(s.skip(name), Class::SegmentBody);
            let rest = (front + s + back).skip(front.len() + name);
            &&& count <= s.len() - name
            &&& leading(rest, Class::SegmentBody) == (if name + count < s.len() {
                count
            } else {
                rest.len()
            })
        }),
{
    let rest = s.skip(name);
    let long = (front + s + back).skip(front.len() + name);
    let count = leading(rest, Class::SegmentBody);
    lemma_leading(rest, Class::SegmentBody);
    assert(long =~= rest + back);
    if count < rest.len() {
        assert forall|i: int| 0 <= i < count implies Class::SegmentBody.has(long[i]) by {
            assert(long[i] == rest[i]);
        }
        assert(long[count as int] == rest[count as int]);
        lemma_leading_is(long, Class::SegmentBody, count);
    } else {
        assert forall|i: int| 0 <= i < long.len() implies Class::SegmentBody.has(long[i]) by {
            if i < rest.len() {
                assert(long[i] == rest[i]);
            } else {
                assert(long[i] == back[i - rest.len()]);
            }
        }
        lemma_leading_is(long, Class::SegmentBody, long.len());
    }
}

/// Four texts put together, with a fifth behind the last or behind them all.
proof fn lemma_put_behind(
    a: Seq<char>,
    b: Seq<char>,
    c: Seq<char>,
    d: Seq<char>,
    back: Seq<char>,
)
    ensures
        a + b + c + (d + back) == (a + b + c + d) + back,
{
    assert(a + b + c + (d + back) =~= (a + b + c + d) + back);
}

proof fn lemma_registry_from_framed(
    front: Seq<char>,
    s: Seq<char>,
    back: Seq<char>,
    prefix: Seq<char>,
    at: int,
)
    requires
        is_frame(front, back),
        is_apart(prefix),
        0 <= at <= s.len(),
    ensures
        registry_replaced_from(front + s + back, prefix, front.len() + at)
            == registry_replaced_from(s, prefix, at) + back,
    decreases s.len() - at,
{
    let whole = front + s + back;
    let n = front.len() as int;
    lemma_find_framed(front, s, back, prefix, at);
    match find(s, prefix, at) {
        Some(k) => {
            let name = k + prefix.len();
            let slash = name + leading(s.skip(name), Class::SegmentBody);
            let next = if slash < s.len() {
                slash + 1
            } else {
                name
            };
            lemma_segment_framed(front, s, back, name);
            lemma_registry_from_framed(front, s, back, prefix, next);
            assert(whole.subrange(n + at, n + k) =~= s.subrange(at, k));
            lemma_put_behind(
                s.subrange(at, k),
                CARGO_REGISTRY@,
                seq!['/'],
                registry_replaced_from(s, prefix, next),
                back,
            );
        },
        None => {
            assert(whole.skip(n + at) =~= s.skip(at) + back);
        },
    }
}

#[verifier::spinoff_prover]
proof fn lemma_registry_all_framed(
    front: Seq<char>,
    s: Seq<char>,
    back: Seq<char>,
    prefix: Seq<char>,
)
    requires
        is_frame(front, back),
        is_apart(prefix),
    ensures
        registry_replaced_from(front + s + back, prefix, 0) == front + registry_replaced_from(
            s,
            prefix,
            0,
        ) + back,
{
    let whole = front + s + back;
    let n = front.len() as int;
    lemma_find_framed(front, s, back, prefix, 0);
    match find(s, prefix, 0) {
        Some(k) => {
            let name = k + prefix.len();
            let slash = name + leading(s.skip(name), Class::SegmentBody);
            let next = if slash < s.len() {
                slash + 1
            } else {
                name
            };
            let done = s.subrange(0, k);
            let more = registry_replaced_from(s, prefix, next);
            lemma_segment_framed(front, s, back, name);
            lemma_registry_from_framed(front, s, back, prefix, next);
            assert(whole.subrange(0, n + k) =~= front + done);
            lemma_put_behind(front + done, CARGO_REGISTRY@, seq!['/'], more, back);
            assert((front + done) + CARGO_REGISTRY@ + seq!['/'] + more =~= front + (done
                + CARGO_REGISTRY@ + seq!['/'] + more));
        },
        None => {
            assert(whole.skip(0) =~= whole);
            assert(s.skip(0) =~= s);
        },
    }
}

/// Toolchain paths are rewritten in a frame as they are without one.
pub proof fn lemma_toolchain_framed(front: Seq<char>, s: Seq<char>, back: Seq<char>)
    requires
        is_frame(front, back),
    ensures
        sysroot_replaced(front + s + back) == front + sysroot_replaced(s) + back,
{
    reveal_strlit("$RUST");
    reveal_strlit("/lib/rustlib/src/rust/library/");
    reveal_strlit("/lib/rustlib/src/rust/src/");
    let to = RUST@ + seq!['/'];
    assert(is_apart(LIBRARY_MARKER@));
    assert(is_apart(OLDER_MARKER@));
    let one = sysroot_stripped(s, LIBRARY_MARKER@, to);
    lemma_sysroot_framed(front, s, back, LIBRARY_MARKER@, to);
    lemma_sysroot_framed(front, one, back, OLDER_MARKER@, to);
    lemma_commit_framed(front, sysroot_stripped(one, OLDER_MARKER@, to), back);
}

/// Registry paths are rewritten in a frame as they are without one.
pub proof fn lemma_registry_framed(
    front: Seq<char>,
    s: Seq<char>,
    back: Seq<char>,
    home: Seq<char>,
)
    requires
        is_frame(front, back),
        home.len() > 0 ==> is_unframed(home),
    ensures
        registry_replaced(front + s + back, home) == front + registry_replaced(s, home) + back,
{
    reveal_strlit("/registry/src/");
    let kept = home.take(home.len() - trailing(home, Class::Separator));
    let prefix = registry_prefix(home);
    lemma_trailing(home, Class::Separator);
    assert(is_apart(prefix)) by {
        if kept.len() > 0 {
            assert(prefix[0] == home[0]);
        } else {
            assert(prefix[0] == '/');
        }
        assert(prefix.last() == '/');
        assert forall|i: int| 0 <= i < prefix.len() - 1 && #[trigger] prefix[i] == ':' implies
            !is_digit(prefix[i + 1]) by {
            if i + 1 < kept.len() {
                assert(home[i] == ':');
                assert(prefix[i + 1] == home[i + 1]);
            } else if i + 1 == kept.len() {
                assert(prefix[i + 1] == '/');
            } else {
                assert(prefix[i] == "/registry/src/"@[i - kept.len()]);
            }
        }
    }
    lemma_registry_all_framed(front, s, back, prefix);
}

// ---------------------------------------------------------------------------
// Where a directory stands whole.
// ---------------------------------------------------------------------------

/// A directory ends at a separator, at the colon of a position, at what a path is wrapped
/// in, or with the line, and no name goes on past it; it begins with the line or behind
/// anything that is no part of a path.
pub proof fn law_what_a_directory_is_wrapped_in(c: char)
    ensures
        may_end(None),
        may_end(Some('/')) && may_end(Some(':')) && may_end(Some('`')) && may_end(Some('"'))
            && may_end(Some('\'')) && may_end(Some(')')) && may_end(Some(',')) && may_end(
            Some(';'),
        ) && may_end(Some('\\')),
        is_ascii_alphanumeric(c) || c == '-' || c == '_' || c == '.' || c == ' ' ==> !may_end(
            Some(c),
        ),
        may_start(None),
        may_start(Some(' ')) && may_start(Some('`')) && may_start(Some('"')) && may_start(
            Some('('),
        ) && may_start(Some('\'')) && may_start(Some('=')) && may_start(Some(':')) && may_start(
            Some('<'),
        ),
        is_ascii_alphanumeric(c) || c == '-' || c == '_' || c == '.' || c == '/' || c == '\\'
            ==> !may_start(Some(c)),
{
}

/// A directory is replaced wherever it stands whole, not only where it does so first.
pub proof fn law_a_directory_is_replaced_every_time(
    front: Seq<char>,
    middle: Seq<char>,
    back: Seq<char>,
    from: Seq<char>,
    to: Seq<char>,
)
    requires
        from.len() > 0,
        middle.len() > 0,
        may_start(char_at(front, front.len() - 1)),
        may_end(Some(middle[0])),
        may_start(Some(middle.last())),
        may_end(char_at(back, 0)),
        forall|k: int| #[trigger]
            occurs_at(front + from + middle + from + back, from, k) ==> k == front.len() || k
                == front.len() + from.len() + middle.len(),
    ensures
        dir_replaced(front + from + middle + from + back, from, to) == front + to + middle + to
            + back,
{
    let line = front + from + middle + from + back;
    let one = front.len() as int;
    let after_one = one + from.len();
    let two = after_one + middle.len();
    let after_two = two + from.len();
    assert(line.subrange(one, after_one) =~= from);
    assert(line.subrange(two, after_two) =~= from);
    assert(occurs_at(line, from, one));
    assert(occurs_at(line, from, two));
    lemma_find(line, from, 0);
    lemma_find(line, from, after_one);
    assert(find(line, from, 0) == Some(one));
    assert(find(line, from, after_one) == Some(two));
    assert(char_at(line, one - 1) == char_at(front, front.len() - 1));
    assert(line[after_one] == middle[0]);
    assert(line[two - 1] == middle.last());
    assert(char_at(line, after_two) == char_at(back, 0));
    assert(anchored(line, one, from.len() as int));
    assert(anchored(line, two, from.len() as int));
    lemma_nothing_anchored(line, from, to, after_two);
    assert(line.subrange(0, one) =~= front);
    assert(line.subrange(after_one, two) =~= middle);
    assert(line.skip(after_two) =~= back);
    assert(replace_dir_from(line, from, to, after_one) =~= middle + to + back);
    assert(dir_replaced(line, from, to) =~= front + to + middle + to + back);
}

/// Separators behind cargo's home make no difference to what its registry goes by.
pub proof fn law_a_separator_behind_cargos_home_makes_no_difference(
    line: Seq<char>,
    home: Seq<char>,
)
    ensures
        registry_replaced(line, home.push('/')) == registry_replaced(line, home),
{
    let longer = home.push('/');
    assert(longer.drop_last() =~= home);
    assert(trailing(longer, Class::Separator) == 1 + trailing(home, Class::Separator));
    lemma_trailing(home, Class::Separator);
    let n = home.len() - trailing(home, Class::Separator);
    assert(longer.take(n) =~= home.take(n));
}

} // verus!

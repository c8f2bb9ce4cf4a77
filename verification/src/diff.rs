//! A plain-text unified-ish diff.
//!
//! No colour: CI logs are usually read without it anyway.
use crate::text::{
    chars_of, decimal, has_text, lemma_has_text, lines, push_chars, push_text, split_lines,
    starts_with, string_of, strings, texts, to_decimal, words,
};
use vstd::prelude::*;
use vstd::slice::slice_subrange;

verus! {

/// Lines of context kept around each change.
pub const CONTEXT: usize = 3;

/// Above this many cells the quadratic search is skipped in favour of a blunt
/// delete-then-insert rendering. Goldens are small; this only guards against a
/// pathological one.
pub const MAX_CELLS: usize = 1_048_576;

/// One line of a diff.
#[derive(Debug, PartialEq, Eq)]
pub enum Edit<'a> {
    Same(&'a str),
    Delete(&'a str),
    Insert(&'a str),
}

/// One line of a diff, as a value to reason about.
pub enum Change {
    Same(Seq<char>),
    Delete(Seq<char>),
    Insert(Seq<char>),
}

impl View for Edit<'_> {
    type V = Change;

    open spec fn view(&self) -> Change {
        match self {
            Edit::Same(line) => Change::Same(line@),
            Edit::Delete(line) => Change::Delete(line@),
            Edit::Insert(line) => Change::Insert(line@),
        }
    }
}

/// The changes in a list.
pub open spec fn changes(list: Seq<Edit>) -> Seq<Change> {
    list.map_values(|e: Edit| e@)
}

/// How many lines two texts begin with in common.
pub open spec fn common_prefix(a: Seq<Seq<char>>, b: Seq<Seq<char>>) -> nat
    decreases a.len(),
{
    if a.len() == 0 || b.len() == 0 || a[0] != b[0] {
        0
    } else {
        1 + common_prefix(a.drop_first(), b.drop_first())
    }
}

/// How many lines two texts end with in common.
pub open spec fn common_suffix(a: Seq<Seq<char>>, b: Seq<Seq<char>>) -> nat
    decreases a.len(),
{
    if a.len() == 0 || b.len() == 0 || a.last() != b.last() {
        0
    } else {
        1 + common_suffix(a.drop_last(), b.drop_last())
    }
}

/// The 1-based number of the first line at which two texts differ.
pub open spec fn differs_at(a: Seq<Seq<char>>, b: Seq<Seq<char>>) -> Option<nat> {
    if a == b {
        None
    } else {
        Some(common_prefix(a, b) + 1)
    }
}

/// Every line, kept.
pub open spec fn sames(a: Seq<Seq<char>>) -> Seq<Change> {
    a.map_values(|line: Seq<char>| Change::Same(line))
}

/// Every line, removed.
pub open spec fn deletes(a: Seq<Seq<char>>) -> Seq<Change> {
    a.map_values(|line: Seq<char>| Change::Delete(line))
}

/// Every line, added.
pub open spec fn inserts(b: Seq<Seq<char>>) -> Seq<Change> {
    b.map_values(|line: Seq<char>| Change::Insert(line))
}

/// The length of the longest common subsequence.
pub open spec fn lcs_len(a: Seq<Seq<char>>, b: Seq<Seq<char>>) -> nat
    decreases a.len() + b.len(),
{
    if a.len() == 0 || b.len() == 0 {
        0
    } else if a[0] == b[0] {
        1 + lcs_len(a.drop_first(), b.drop_first())
    } else {
        let without_a = lcs_len(a.drop_first(), b);
        let without_b = lcs_len(a, b.drop_first());
        if without_a >= without_b {
            without_a
        } else {
            without_b
        }
    }
}

/// The edits that keep a longest common subsequence, removals first where both
/// would do.
pub open spec fn walk(a: Seq<Seq<char>>, b: Seq<Seq<char>>) -> Seq<Change>
    decreases a.len() + b.len(),
{
    if a.len() == 0 || b.len() == 0 {
        deletes(a) + inserts(b)
    } else if a[0] == b[0] {
        seq![Change::Same(a[0])] + walk(a.drop_first(), b.drop_first())
    } else if lcs_len(a.drop_first(), b) >= lcs_len(a, b.drop_first()) {
        seq![Change::Delete(a[0])] + walk(a.drop_first(), b)
    } else {
        seq![Change::Insert(b[0])] + walk(a, b.drop_first())
    }
}

/// The lines of `a` that stand before `b`'s and after its common beginning.
pub open spec fn middle(a: Seq<Seq<char>>, prefix: nat, suffix: nat) -> Seq<Seq<char>> {
    a.subrange(prefix as int, a.len() - suffix)
}

/// How many lines two texts end with in common, not counting what they begin with
/// in common.
pub open spec fn suffix_past(a: Seq<Seq<char>>, b: Seq<Seq<char>>, prefix: nat) -> nat {
    common_suffix(a.skip(prefix as int), b.skip(prefix as int))
}

/// Whether the lines between the common beginning and the common end are few
/// enough to search.
pub open spec fn searchable(a: Seq<Seq<char>>, b: Seq<Seq<char>>) -> bool {
    let prefix = common_prefix(a, b);
    let suffix = suffix_past(a, b, prefix);
    middle(a, prefix, suffix).len() * middle(b, prefix, suffix).len() <= MAX_CELLS
}

/// The edits from `a` to `b`.
pub open spec fn edits(a: Seq<Seq<char>>, b: Seq<Seq<char>>) -> Seq<Change> {
    let prefix = common_prefix(a, b);
    let suffix = suffix_past(a, b, prefix);
    let a_mid = middle(a, prefix, suffix);
    let b_mid = middle(b, prefix, suffix);
    sames(a.take(prefix as int)) + (if searchable(a, b) {
        walk(a_mid, b_mid)
    } else {
        deletes(a_mid) + inserts(b_mid)
    }) + sames(a.skip(a.len() - suffix))
}

/// One line of the rendering.
pub open spec fn rendered(change: Change) -> Seq<char> {
    match change {
        Change::Same(line) => seq![' '] + line + seq!['\n'],
        Change::Delete(line) => seq!['-'] + line + seq!['\n'],
        Change::Insert(line) => seq!['+'] + line + seq!['\n'],
    }
}

/// The lines of the rendering, all of them.
pub open spec fn rendered_all(list: Seq<Change>) -> Seq<char>
    decreases list.len(),
{
    if list.len() == 0 {
        seq![]
    } else {
        rendered(list[0]) + rendered_all(list.drop_first())
    }
}

/// The end of the run of unchanged lines at `at`.
pub open spec fn run_end(list: Seq<Change>, at: int) -> int
    decreases list.len() - at,
{
    if 0 <= at < list.len() && list[at] is Same {
        run_end(list, at + 1)
    } else {
        at
    }
}

/// A run of unchanged lines from `at` to `end`: whole where it is short, and
/// otherwise what touches a change on either side, around a count of the rest.
pub open spec fn run_text(list: Seq<Change>, at: int, end: int) -> Seq<char> {
    if end - at <= CONTEXT * 2 + 1 {
        rendered_all(list.subrange(at, end))
    } else {
        let head = if at == 0 {
            0
        } else {
            CONTEXT as int
        };
        let tail = if end == list.len() {
            0
        } else {
            CONTEXT as int
        };
        rendered_all(list.subrange(at, at + head)) + "@@ "@ + decimal(
            (end - at - head - tail) as nat,
        ) + " unchanged line(s) @@\n"@ + rendered_all(list.subrange(end - tail, end))
    }
}

/// The rendering from `at` on.
pub open spec fn hunks(list: Seq<Change>, at: int) -> Seq<char>
    decreases list.len() - at,
{
    if at < 0 || at >= list.len() {
        seq![]
    } else if !(list[at] is Same) {
        rendered(list[at]) + hunks(list, at + 1)
    } else {
        let end = run_end(list, at);
        proof {
            lemma_run_end(list, at);
        }
        run_text(list, at, end) + hunks(list, end)
    }
}

/// A run of unchanged lines ends where the first changed one stands.
pub proof fn lemma_run_end(list: Seq<Change>, at: int)
    requires
        0 <= at <= list.len(),
    ensures
        at <= run_end(list, at) <= list.len(),
        forall|i: int| at <= i < run_end(list, at) ==> list[i] is Same,
        run_end(list, at) < list.len() ==> !(list[run_end(list, at)] is Same),
        at < list.len() && list[at] is Same ==> at < run_end(list, at),
    decreases list.len() - at,
{
    if at < list.len() && list[at] is Same {
        lemma_run_end(list, at + 1);
    }
}

/// The difference between two texts, with `-` for expected-only lines and `+` for
/// actual-only ones.
pub open spec fn unified_text(
    expected: Seq<char>,
    actual: Seq<char>,
    expected_label: Seq<char>,
    actual_label: Seq<char>,
) -> Seq<char> {
    let a = lines(expected);
    let b = lines(actual);
    "--- expected ("@ + expected_label + ")\n+++ actual ("@ + actual_label + ")\n"@ + hunks(
        edits(a, b),
        0,
    ) + (if a.len() == 0 {
        "(the golden is empty)\n"@
    } else {
        seq![]
    })
}

// ---------------------------------------------------------------------------
// Searching.
// ---------------------------------------------------------------------------

/// The lines of a text, each a string.
fn line_strings(text: &str) -> (r: Vec<String>)
    ensures
        strings(r@) == lines(text@),
{
    let chars = chars_of(text);
    let split = split_lines(chars.as_slice());
    let mut out: Vec<String> = Vec::new();
    let mut i: usize = 0;
    while i < split.len()
        invariant
            i <= split@.len(),
            strings(out@) =~= texts(split@).take(i as int),
        decreases split@.len() - i,
    {
        let ghost done = strings(out@);
        let line = string_of(split[i].as_slice());
        out.push(line);
        assert(strings(out@) =~= done.push(line@));
        i += 1;
    }
    assert(texts(split@).take(i as int) =~= texts(split@));
    out
}

/// A view of each string in a list.
fn borrowed(list: &Vec<String>) -> (r: Vec<&str>)
    ensures
        words(r@) == strings(list@),
{
    let mut out: Vec<&str> = Vec::new();
    let mut i: usize = 0;
    while i < list.len()
        invariant
            i <= list@.len(),
            words(out@) =~= strings(list@).take(i as int),
        decreases list@.len() - i,
    {
        let ghost done = words(out@);
        let line = list[i].as_str();
        out.push(line);
        assert(words(out@) =~= done.push(line@));
        i += 1;
    }
    assert(strings(list@).take(i as int) =~= strings(list@));
    out
}

/// A string for each word in a list.
fn owned(list: &[&str]) -> (r: Vec<String>)
    ensures
        strings(r@) == words(list@),
{
    let mut out: Vec<String> = Vec::new();
    let mut i: usize = 0;
    while i < list.len()
        invariant
            i <= list@.len(),
            strings(out@) =~= words(list@).take(i as int),
        decreases list@.len() - i,
    {
        let ghost done = strings(out@);
        let line = list[i].to_owned();
        out.push(line);
        assert(strings(out@) =~= done.push(line@));
        i += 1;
    }
    assert(words(list@).take(i as int) =~= words(list@));
    out
}

fn prefix_of(a: &Vec<String>, b: &Vec<String>) -> (r: usize)
    ensures
        r == common_prefix(strings(a@), strings(b@)),
        r <= a@.len(),
        r <= b@.len(),
{
    let ghost left = strings(a@);
    let ghost right = strings(b@);
    let mut i: usize = 0;
    assert(left.skip(0) =~= left);
    assert(right.skip(0) =~= right);
    while i < a.len() && i < b.len() && a[i] == b[i]
        invariant
            i <= a@.len(),
            i <= b@.len(),
            left == strings(a@),
            right == strings(b@),
            common_prefix(left, right) == i + common_prefix(
                left.skip(i as int),
                right.skip(i as int),
            ),
        decreases a@.len() - i,
    {
        assert(left.skip(i as int).drop_first() =~= left.skip(i + 1));
        assert(right.skip(i as int).drop_first() =~= right.skip(i + 1));
        i += 1;
    }
    i
}

/// How many lines two texts end with in common, past the first `prefix`.
fn suffix_of(a: &Vec<String>, b: &Vec<String>, prefix: usize) -> (r: usize)
    requires
        prefix <= a@.len(),
        prefix <= b@.len(),
    ensures
        r == suffix_past(strings(a@), strings(b@), prefix as nat),
        prefix + r <= a@.len(),
        prefix + r <= b@.len(),
{
    let ghost left = strings(a@).skip(prefix as int);
    let ghost right = strings(b@).skip(prefix as int);
    let mut i: usize = 0;
    assert(left.take(left.len() as int) =~= left);
    assert(right.take(right.len() as int) =~= right);
    while i < a.len() - prefix && i < b.len() - prefix && a[a.len() - 1 - i] == b[b.len() - 1 - i]
        invariant
            prefix + i <= a@.len(),
            prefix + i <= b@.len(),
            left == strings(a@).skip(prefix as int),
            right == strings(b@).skip(prefix as int),
            common_suffix(left, right) == i + common_suffix(
                left.take(left.len() - i),
                right.take(right.len() - i),
            ),
        decreases a@.len() - prefix - i,
    {
        assert(left.take(left.len() - i).drop_last() =~= left.take(left.len() - i - 1));
        assert(right.take(right.len() - i).drop_last() =~= right.take(right.len() - i - 1));
        i += 1;
    }
    i
}

/// The 1-based number of the first line at which `expected` and `actual` differ.
pub fn first_difference(expected: &str, actual: &str) -> (r: Option<usize>)
    ensures
        match r {
            Some(n) => differs_at(lines(expected@), lines(actual@)) == Some(n as nat),
            None => differs_at(lines(expected@), lines(actual@)) is None,
        },
{
    let a = line_strings(expected);
    let b = line_strings(actual);
    let common: usize = prefix_of(&a, &b);
    proof {
        lemma_common_prefix(lines(expected@), lines(actual@));
        assert(strings(a@).len() == a@.len());
        assert(strings(b@).len() == b@.len());
    }
    if common == a.len() && common == b.len() {
        assert(lines(expected@) =~= lines(actual@));
        None
    } else {
        Some(common + 1)
    }
}

/// What two texts begin with in common is common, and ends at a difference.
pub proof fn lemma_common_prefix(a: Seq<Seq<char>>, b: Seq<Seq<char>>)
    ensures
        common_prefix(a, b) <= a.len(),
        common_prefix(a, b) <= b.len(),
        forall|i: int| 0 <= i < common_prefix(a, b) ==> a[i] == b[i],
        common_prefix(a, b) < a.len() && common_prefix(a, b) < b.len() ==> a[common_prefix(
            a,
            b,
        ) as int] != b[common_prefix(a, b) as int],
    decreases a.len(),
{
    if a.len() > 0 && b.len() > 0 && a[0] == b[0] {
        let a1 = a.drop_first();
        let b1 = b.drop_first();
        let n = common_prefix(a1, b1);
        lemma_common_prefix(a1, b1);
        assert forall|i: int| 0 <= i < common_prefix(a, b) implies a[i] == b[i] by {
            if i > 0 {
                assert(a[i] == a1[i - 1]);
                assert(b[i] == b1[i - 1]);
            }
        }
        if n < a1.len() && n < b1.len() {
            assert(a1[n as int] == a[(n + 1) as int]);
            assert(b1[n as int] == b[(n + 1) as int]);
        }
    }
}

/// What two texts end with in common is common.
pub proof fn lemma_common_suffix(a: Seq<Seq<char>>, b: Seq<Seq<char>>)
    ensures
        common_suffix(a, b) <= a.len(),
        common_suffix(a, b) <= b.len(),
        a.skip(a.len() - common_suffix(a, b)) == b.skip(b.len() - common_suffix(a, b)),
    decreases a.len(),
{
    if a.len() > 0 && b.len() > 0 && a.last() == b.last() {
        let a1 = a.drop_last();
        let b1 = b.drop_last();
        let n = common_suffix(a1, b1);
        lemma_common_suffix(a1, b1);
        assert(a.skip(a.len() - n - 1) =~= a1.skip(a1.len() - n).push(a.last()));
        assert(b.skip(b.len() - n - 1) =~= b1.skip(b1.len() - n).push(b.last()));
    } else {
        assert(a.skip(a.len() as int) =~= b.skip(b.len() as int));
    }
}

/// A common subsequence is no longer than either side.
pub proof fn lemma_lcs_bound(a: Seq<Seq<char>>, b: Seq<Seq<char>>)
    ensures
        lcs_len(a, b) <= a.len(),
        lcs_len(a, b) <= b.len(),
    decreases a.len() + b.len(),
{
    if a.len() > 0 && b.len() > 0 {
        if a[0] == b[0] {
            lemma_lcs_bound(a.drop_first(), b.drop_first());
        } else {
            lemma_lcs_bound(a.drop_first(), b);
            lemma_lcs_bound(a, b.drop_first());
        }
    }
}

/// Whether `row` holds the answers for `a` against every end of `b`, the shortest
/// first.
spec fn is_row(row: Seq<usize>, a: Seq<Seq<char>>, b: Seq<Seq<char>>) -> bool {
    row.len() == b.len() + 1 && forall|l: int|
        0 <= l <= b.len() ==> #[trigger] row[l] == lcs_len(a, b.skip(b.len() - l))
}

/// The answers for one more line in front of `a`, from the answers for `a`.
fn next_row(line: &String, b: &Vec<String>, previous: &Vec<usize>, Ghost(a): Ghost<Seq<Seq<char>>>) -> (r:
    Vec<usize>)
    requires
        is_row(previous@, a, strings(b@)),
        a.len() < usize::MAX,
    ensures
        is_row(r@, seq![line@] + a, strings(b@)),
{
    let ghost right = strings(b@);
    let ghost longer = seq![line@] + a;
    let m: usize = b.len();
    let mut row: Vec<usize> = Vec::new();
    row.push(0);
    assert(right.skip(m as int) =~= seq![]);
    assert(longer.drop_first() =~= a);
    let mut l: usize = 0;
    while l < m
        invariant
            l <= m,
            m == b@.len(),
            right == strings(b@),
            longer == seq![line@] + a,
            longer.drop_first() == a,
            a.len() < usize::MAX,
            is_row(previous@, a, right),
            row@.len() == l + 1,
            forall|k: int| 0 <= k <= l ==> #[trigger] row@[k] == lcs_len(longer, right.skip(m - k)),
        decreases m - l,
    {
        let j: usize = m - 1 - l;
        let ghost rest = right.skip(j as int);
        proof {
            assert(rest.drop_first() =~= right.skip(m - l));
            assert(rest[0] == b@[j as int]@);
            assert(previous@[l as int] == lcs_len(a, right.skip(m - l)));
            assert(previous@[l + 1] == lcs_len(a, right.skip(m - (l + 1))));
            lemma_lcs_bound(a, right.skip(m - l));
        }
        let cell: usize = if *line == b[j] {
            previous[l] + 1
        } else if previous[l + 1] >= row[l] {
            previous[l + 1]
        } else {
            row[l]
        };
        assert(cell == lcs_len(longer, rest));
        row.push(cell);
        l += 1;
    }
    row
}

/// The answers for every end of `a` against every end of `b`, the shortest first.
fn table(a: &Vec<String>, b: &Vec<String>) -> (r: Vec<Vec<usize>>)
    ensures
        r@.len() == a@.len() + 1,
        forall|k: int|
            0 <= k <= a@.len() ==> is_row(
                (#[trigger] r@[k])@,
                strings(a@).skip(a@.len() - k),
                strings(b@),
            ),
{
    let ghost left = strings(a@);
    let ghost right = strings(b@);
    let n: usize = a.len();
    let m: usize = b.len();
    let mut first: Vec<usize> = Vec::new();
    first.push(0);
    let mut l: usize = 0;
    while l < m
        invariant
            l <= m,
            first@.len() == l + 1,
            forall|k: int| 0 <= k <= l ==> #[trigger] first@[k] == 0,
        decreases m - l,
    {
        first.push(0);
        l += 1;
    }
    let mut rows: Vec<Vec<usize>> = Vec::new();
    assert(left.skip(n as int) =~= seq![]);
    rows.push(first);
    assert(is_row(rows@[0]@, left.skip(n - 0), right));
    let mut k: usize = 0;
    while k < n
        invariant
            k <= n,
            n == a@.len(),
            left == strings(a@),
            right == strings(b@),
            rows@.len() == k + 1,
            forall|i: int| 0 <= i <= k ==> is_row((#[trigger] rows@[i])@, left.skip(n - i), right),
        decreases n - k,
    {
        let i: usize = n - 1 - k;
        let ghost rest = left.skip(n - k);
        assert(seq![a@[i as int]@] + rest =~= left.skip(i as int));
        assert(is_row(rows@[k as int]@, left.skip(n - k), right));
        let row = next_row(&a[i], b, &rows[k], Ghost(rest));
        rows.push(row);
        k += 1;
    }
    rows
}

/// Longest-common-subsequence diff. Quadratic, which is fine at golden sizes and
/// is guarded by [`MAX_CELLS`].
pub fn lcs<'a>(a: &[&'a str], b: &[&'a str]) -> (r: Vec<Edit<'a>>)
    ensures
        changes(r@) == walk(words(a@), words(b@)),
{
    let a_lines = owned(a);
    let b_lines = owned(b);
    let answers = table(&a_lines, &b_lines);
    let ghost left = words(a@);
    let ghost right = words(b@);
    let n: usize = a.len();
    let m: usize = b.len();
    let mut out: Vec<Edit<'a>> = Vec::new();
    let mut i: usize = 0;
    let mut j: usize = 0;
    assert(left.skip(0) =~= left);
    assert(right.skip(0) =~= right);
    while i < n && j < m
        invariant
            i <= n,
            j <= m,
            n == a@.len(),
            m == b@.len(),
            left == words(a@),
            right == words(b@),
            left == strings(a_lines@),
            right == strings(b_lines@),
            a_lines@.len() == n,
            b_lines@.len() == m,
            answers@.len() == n + 1,
            forall|k: int|
                0 <= k <= n ==> is_row((#[trigger] answers@[k])@, left.skip(n - k), right),
            changes(out@) + walk(left.skip(i as int), right.skip(j as int)) =~= walk(left, right),
        decreases (n - i) + (m - j),
    {
        let ghost left_rest = left.skip(i as int);
        let ghost right_rest = right.skip(j as int);
        let ghost done = changes(out@);
        proof {
            assert(left_rest.drop_first() =~= left.skip(i + 1));
            assert(right_rest.drop_first() =~= right.skip(j + 1));
            assert(left_rest[0] == a_lines@[i as int]@);
            assert(right_rest[0] == b_lines@[j as int]@);
            assert(left_rest[0] == a@[i as int]@);
            assert(right_rest[0] == b@[j as int]@);
            assert(is_row(answers@[n - i - 1]@, left.skip(n - (n - i - 1)), right));
            assert(is_row(answers@[n - i]@, left.skip(n - (n - i)), right));
            assert(answers@[n - i - 1]@[m - j] == lcs_len(left.skip(i + 1), right.skip(m - (m - j))));
            assert(answers@[n - i]@[m - j - 1] == lcs_len(
                left.skip(i as int),
                right.skip(m - (m - j - 1)),
            ));
        }
        if a_lines[i] == b_lines[j] {
            let edit = Edit::Same(a[i]);
            out.push(edit);
            assert(changes(out@) =~= done.push(edit@));
            i += 1;
            j += 1;
        } else if answers[n - i - 1][m - j] >= answers[n - i][m - j - 1] {
            let edit = Edit::Delete(a[i]);
            out.push(edit);
            assert(changes(out@) =~= done.push(edit@));
            i += 1;
        } else {
            let edit = Edit::Insert(b[j]);
            out.push(edit);
            assert(changes(out@) =~= done.push(edit@));
            j += 1;
        }
    }
    assert(walk(left.skip(i as int), right.skip(j as int)) =~= deletes(left.skip(i as int))
        + inserts(right.skip(j as int)));
    push_deletes(&mut out, slice_subrange(a, i, n));
    push_inserts(&mut out, slice_subrange(b, j, m));
    assert(words(a@.subrange(i as int, n as int)) =~= left.skip(i as int));
    assert(words(b@.subrange(j as int, m as int)) =~= right.skip(j as int));
    out
}

fn push_sames<'a>(out: &mut Vec<Edit<'a>>, list: &[&'a str])
    ensures
        changes(final(out)@) == changes(old(out)@) + sames(words(list@)),
{
    let mut i: usize = 0;
    while i < list.len()
        invariant
            i <= list@.len(),
            changes(out@) =~= changes(old(out)@) + sames(words(list@)).take(i as int),
        decreases list@.len() - i,
    {
        let ghost done = changes(out@);
        let edit = Edit::Same(list[i]);
        out.push(edit);
        assert(changes(out@) =~= done.push(edit@));
        i += 1;
    }
    assert(sames(words(list@)).take(i as int) =~= sames(words(list@)));
}

fn push_deletes<'a>(out: &mut Vec<Edit<'a>>, list: &[&'a str])
    ensures
        changes(final(out)@) == changes(old(out)@) + deletes(words(list@)),
{
    let mut i: usize = 0;
    while i < list.len()
        invariant
            i <= list@.len(),
            changes(out@) =~= changes(old(out)@) + deletes(words(list@)).take(i as int),
        decreases list@.len() - i,
    {
        let ghost done = changes(out@);
        let edit = Edit::Delete(list[i]);
        out.push(edit);
        assert(changes(out@) =~= done.push(edit@));
        i += 1;
    }
    assert(deletes(words(list@)).take(i as int) =~= deletes(words(list@)));
}

fn push_inserts<'a>(out: &mut Vec<Edit<'a>>, list: &[&'a str])
    ensures
        changes(final(out)@) == changes(old(out)@) + inserts(words(list@)),
{
    let mut i: usize = 0;
    while i < list.len()
        invariant
            i <= list@.len(),
            changes(out@) =~= changes(old(out)@) + inserts(words(list@)).take(i as int),
        decreases list@.len() - i,
    {
        let ghost done = changes(out@);
        let edit = Edit::Insert(list[i]);
        out.push(edit);
        assert(changes(out@) =~= done.push(edit@));
        i += 1;
    }
    assert(inserts(words(list@)).take(i as int) =~= inserts(words(list@)));
}

fn push_all<'a>(out: &mut Vec<Edit<'a>>, more: Vec<Edit<'a>>)
    ensures
        changes(final(out)@) == changes(old(out)@) + changes(more@),
{
    let mut more = more;
    let ghost added = more@;
    let ghost before_push = out@;
    out.append(&mut more);
    assert(changes(out@) =~= changes(before_push) + changes(added));
}

/// The edits from `a` to `b`.
///
/// Trimming what the two begin and end with in common keeps the quadratic core
/// off the usual case, which is one changed line in an otherwise identical golden.
pub fn diff<'a>(a: &[&'a str], b: &[&'a str]) -> (r: Vec<Edit<'a>>)
    ensures
        changes(r@) == edits(words(a@), words(b@)),
{
    let a_lines = owned(a);
    let b_lines = owned(b);
    let ghost left = words(a@);
    let ghost right = words(b@);
    let n: usize = a.len();
    let m: usize = b.len();
    let prefix: usize = prefix_of(&a_lines, &b_lines);
    let suffix: usize = suffix_of(&a_lines, &b_lines, prefix);
    let a_mid = slice_subrange(a, prefix, n - suffix);
    let b_mid = slice_subrange(b, prefix, m - suffix);
    assert(words(a_mid@) =~= middle(left, prefix as nat, suffix as nat));
    assert(words(b_mid@) =~= middle(right, prefix as nat, suffix as nat));
    let mut out: Vec<Edit<'a>> = Vec::new();
    push_sames(&mut out, slice_subrange(a, 0, prefix));
    assert(words(a@.subrange(0, prefix as int)) =~= left.take(prefix as int));
    assert(changes(out@) =~= sames(left.take(prefix as int)));
    let cells: u128 = product(a_mid.len(), b_mid.len());
    if cells > MAX_CELLS as u128 {
        push_deletes(&mut out, a_mid);
        push_inserts(&mut out, b_mid);
    } else {
        let found = lcs(a_mid, b_mid);
        push_all(&mut out, found);
    }
    push_sames(&mut out, slice_subrange(a, n - suffix, n));
    assert(words(a@.subrange(n - suffix, n as int)) =~= left.skip(left.len() - suffix));
    assert(changes(out@) =~= edits(left, right));
    out
}

fn product(a: usize, b: usize) -> (r: u128)
    ensures
        r == a * b,
{
    assert(a * b <= u64::MAX * u64::MAX) by (nonlinear_arith)
        requires
            a <= u64::MAX,
            b <= u64::MAX,
    ;
    a as u128 * b as u128
}

// ---------------------------------------------------------------------------
// Rendering.
// ---------------------------------------------------------------------------

fn render(out: &mut Vec<char>, edit: &Edit<'_>)
    ensures
        final(out)@ == old(out)@ + rendered(edit@),
{
    match edit {
        Edit::Same(line) => {
            out.push(' ');
            push_text(out, line);
        },
        Edit::Delete(line) => {
            out.push('-');
            push_text(out, line);
        },
        Edit::Insert(line) => {
            out.push('+');
            push_text(out, line);
        },
    }
    out.push('\n');
    assert(out@ =~= old(out)@ + rendered(edit@));
}

fn render_range(out: &mut Vec<char>, list: &Vec<Edit<'_>>, from: usize, to: usize)
    requires
        from <= to <= list@.len(),
    ensures
        final(out)@ == old(out)@ + rendered_all(changes(list@).subrange(from as int, to as int)),
{
    let ghost all = changes(list@).subrange(from as int, to as int);
    let mut i: usize = from;
    assert(all.skip(0) =~= all);
    while i < to
        invariant
            from <= i <= to <= list@.len(),
            all == changes(list@).subrange(from as int, to as int),
            out@ + rendered_all(all.skip(i - from)) =~= old(out)@ + rendered_all(all),
        decreases to - i,
    {
        assert(all.skip(i - from)[0] == list@[i as int]@);
        assert(all.skip(i - from).drop_first() =~= all.skip(i + 1 - from));
        render(out, &list[i]);
        i += 1;
    }
    assert(all.skip(i - from) =~= seq![]);
}

fn is_same(edit: &Edit<'_>) -> (r: bool)
    ensures
        r == (edit@ is Same),
{
    match edit {
        Edit::Same(_) => true,
        _ => false,
    }
}

/// Render the difference between two texts, with `-` for expected-only lines and
/// `+` for actual-only ones.
pub fn unified(expected: &str, actual: &str, expected_label: &str, actual_label: &str) -> (r: String)
    ensures
        r@ == unified_text(expected@, actual@, expected_label@, actual_label@),
{
    let a_lines = line_strings(expected);
    let b_lines = line_strings(actual);
    let a = borrowed(&a_lines);
    let b = borrowed(&b_lines);
    let found = diff(a.as_slice(), b.as_slice());
    let ghost all = changes(found@);

    let mut out = chars_of("--- expected (");
    push_text(&mut out, expected_label);
    push_text(&mut out, ")\n+++ actual (");
    push_text(&mut out, actual_label);
    push_text(&mut out, ")\n");
    let ghost start = out@;

    let mut i: usize = 0;
    while i < found.len()
        invariant
            i <= found@.len(),
            all == changes(found@),
            out@ + hunks(all, i as int) =~= start + hunks(all, 0),
        decreases found@.len() - i,
    {
        if !is_same(&found[i]) {
            render(&mut out, &found[i]);
            i += 1;
        } else {
            let mut end: usize = i;
            while end < found.len() && is_same(&found[end])
                invariant
                    i <= end <= found@.len(),
                    all == changes(found@),
                    run_end(all, i as int) == run_end(all, end as int),
                decreases found@.len() - end,
            {
                end += 1;
            }
            assert(end == run_end(all, i as int));
            proof {
                lemma_run_end(all, i as int);
            }
            if end - i <= CONTEXT * 2 + 1 {
                render_range(&mut out, &found, i, end);
            } else {
                let head: usize = if i == 0 {
                    0
                } else {
                    CONTEXT
                };
                let tail: usize = if end == found.len() {
                    0
                } else {
                    CONTEXT
                };
                render_range(&mut out, &found, i, i + head);
                push_text(&mut out, "@@ ");
                let count = to_decimal(end - i - head - tail);
                push_chars(&mut out, count.as_slice());
                push_text(&mut out, " unchanged line(s) @@\n");
                render_range(&mut out, &found, end - tail, end);
            }
            i = end;
        }
    }
    assert(hunks(all, i as int) =~= seq![]);
    // Reachable through an empty golden, or a filter that reduces one to nothing.
    if a.len() == 0 {
        push_text(&mut out, "(the golden is empty)\n");
    }
    string_of(out.as_slice())
}

// ---------------------------------------------------------------------------
// What the edits promise.
// ---------------------------------------------------------------------------

/// The lines the edits start from.
pub open spec fn old_side(list: Seq<Change>) -> Seq<Seq<char>>
    decreases list.len(),
{
    if list.len() == 0 {
        seq![]
    } else {
        (match list[0] {
            Change::Same(line) => seq![line],
            Change::Delete(line) => seq![line],
            Change::Insert(line) => seq![],
        }) + old_side(list.drop_first())
    }
}

/// The lines the edits arrive at.
pub open spec fn new_side(list: Seq<Change>) -> Seq<Seq<char>>
    decreases list.len(),
{
    if list.len() == 0 {
        seq![]
    } else {
        (match list[0] {
            Change::Same(line) => seq![line],
            Change::Delete(line) => seq![],
            Change::Insert(line) => seq![line],
        }) + new_side(list.drop_first())
    }
}

/// The lines the edits leave alone.
pub open spec fn kept(list: Seq<Change>) -> Seq<Seq<char>>
    decreases list.len(),
{
    if list.len() == 0 {
        seq![]
    } else {
        (match list[0] {
            Change::Same(line) => seq![line],
            _ => seq![],
        }) + kept(list.drop_first())
    }
}

/// Whether `c` is what is left of `a` when some of its lines are dropped.
pub open spec fn is_subsequence(c: Seq<Seq<char>>, a: Seq<Seq<char>>) -> bool
    decreases a.len(),
{
    if c.len() == 0 {
        true
    } else if a.len() == 0 {
        false
    } else {
        (c[0] == a[0] && is_subsequence(c.drop_first(), a.drop_first())) || is_subsequence(
            c,
            a.drop_first(),
        )
    }
}

proof fn lemma_sides_add(x: Seq<Change>, y: Seq<Change>)
    ensures
        old_side(x + y) == old_side(x) + old_side(y),
        new_side(x + y) == new_side(x) + new_side(y),
        kept(x + y) == kept(x) + kept(y),
    decreases x.len(),
{
    if x.len() == 0 {
        assert(x + y =~= y);
        assert(old_side(x) + old_side(y) =~= old_side(y));
        assert(new_side(x) + new_side(y) =~= new_side(y));
        assert(kept(x) + kept(y) =~= kept(y));
    } else {
        lemma_sides_add(x.drop_first(), y);
        assert((x + y).drop_first() =~= x.drop_first() + y);
        assert(old_side(x + y) =~= old_side(x) + old_side(y));
        assert(new_side(x + y) =~= new_side(x) + new_side(y));
        assert(kept(x + y) =~= kept(x) + kept(y));
    }
}

proof fn lemma_sides_of_one_kind(a: Seq<Seq<char>>)
    ensures
        old_side(sames(a)) == a,
        new_side(sames(a)) == a,
        kept(sames(a)) == a,
        old_side(deletes(a)) == a,
        new_side(deletes(a)).len() == 0,
        kept(deletes(a)).len() == 0,
        old_side(inserts(a)).len() == 0,
        new_side(inserts(a)) == a,
        kept(inserts(a)).len() == 0,
    decreases a.len(),
{
    if a.len() > 0 {
        let rest = a.drop_first();
        lemma_sides_of_one_kind(rest);
        assert(sames(a).drop_first() =~= sames(rest));
        assert(deletes(a).drop_first() =~= deletes(rest));
        assert(inserts(a).drop_first() =~= inserts(rest));
        assert(seq![a[0]] + rest =~= a);
    } else {
        assert(a =~= seq![]);
    }
}

proof fn lemma_walk(a: Seq<Seq<char>>, b: Seq<Seq<char>>)
    ensures
        old_side(walk(a, b)) == a,
        new_side(walk(a, b)) == b,
        kept(walk(a, b)).len() == lcs_len(a, b),
    decreases a.len() + b.len(),
{
    let list = walk(a, b);
    if a.len() == 0 || b.len() == 0 {
        lemma_sides_add(deletes(a), inserts(b));
        lemma_sides_of_one_kind(a);
        lemma_sides_of_one_kind(b);
        assert(old_side(list) =~= a);
        assert(new_side(list) =~= b);
    } else if a[0] == b[0] {
        lemma_walk(a.drop_first(), b.drop_first());
        assert(list.drop_first() =~= walk(a.drop_first(), b.drop_first()));
        assert(old_side(list) =~= a);
        assert(new_side(list) =~= b);
    } else if lcs_len(a.drop_first(), b) >= lcs_len(a, b.drop_first()) {
        lemma_walk(a.drop_first(), b);
        assert(list.drop_first() =~= walk(a.drop_first(), b));
        assert(old_side(list) =~= a);
        assert(new_side(list) =~= b);
    } else {
        lemma_walk(a, b.drop_first());
        assert(list.drop_first() =~= walk(a, b.drop_first()));
        assert(old_side(list) =~= a);
        assert(new_side(list) =~= b);
    }
}

/// A text is what stands before, between and after two places in it.
proof fn lemma_three_parts(a: Seq<Seq<char>>, prefix: nat, suffix: nat)
    requires
        prefix + suffix <= a.len(),
    ensures
        a == a.take(prefix as int) + middle(a, prefix, suffix) + a.skip(a.len() - suffix),
        a.skip(prefix as int).skip(a.len() - prefix - suffix) == a.skip(a.len() - suffix),
{
    assert(a =~= a.take(prefix as int) + middle(a, prefix, suffix) + a.skip(a.len() - suffix));
    assert(a.skip(prefix as int).skip(a.len() - prefix - suffix) =~= a.skip(a.len() - suffix));
}

/// What the two sides begin and end with in common, taken apart.
#[verifier::spinoff_prover]
proof fn lemma_parts(a: Seq<Seq<char>>, b: Seq<Seq<char>>)
    ensures
        ({
            let prefix = common_prefix(a, b);
            let suffix = suffix_past(a, b, prefix);
            &&& prefix + suffix <= a.len()
            &&& prefix + suffix <= b.len()
            &&& a == a.take(prefix as int) + middle(a, prefix, suffix) + a.skip(a.len() - suffix)
            &&& b == a.take(prefix as int) + middle(b, prefix, suffix) + a.skip(a.len() - suffix)
        }),
{
    let prefix = common_prefix(a, b);
    let suffix = suffix_past(a, b, prefix);
    lemma_common_prefix(a, b);
    let a1 = a.skip(prefix as int);
    let b1 = b.skip(prefix as int);
    lemma_common_suffix(a1, b1);
    lemma_three_parts(a, prefix, suffix);
    lemma_three_parts(b, prefix, suffix);
    assert(a.take(prefix as int) =~= b.take(prefix as int));
    assert(a1.skip(a1.len() - suffix) == b1.skip(b1.len() - suffix));
}

/// A diff loses nothing: its kept and removed lines are the expected text's lines,
/// in order, and its kept and added lines are the actual text's.
pub proof fn law_diff_restores_both_sides(a: Seq<Seq<char>>, b: Seq<Seq<char>>)
    ensures
        old_side(edits(a, b)) == a,
        new_side(edits(a, b)) == b,
{
    let prefix = common_prefix(a, b);
    let suffix = suffix_past(a, b, prefix);
    let front = a.take(prefix as int);
    let back = a.skip(a.len() - suffix);
    let a_mid = middle(a, prefix, suffix);
    let b_mid = middle(b, prefix, suffix);
    let mid = if searchable(a, b) {
        walk(a_mid, b_mid)
    } else {
        deletes(a_mid) + inserts(b_mid)
    };
    lemma_parts(a, b);
    lemma_walk(a_mid, b_mid);
    lemma_sides_add(deletes(a_mid), inserts(b_mid));
    lemma_sides_of_one_kind(a_mid);
    lemma_sides_of_one_kind(b_mid);
    lemma_sides_of_one_kind(front);
    lemma_sides_of_one_kind(back);
    lemma_sides_add(sames(front), mid);
    lemma_sides_add(sames(front) + mid, sames(back));
    assert(old_side(mid) =~= a_mid);
    assert(new_side(mid) =~= b_mid);
}

/// Two texts have no first difference exactly when their lines are the same, and
/// otherwise it is the first line that is not the same on both sides.
pub proof fn law_first_difference_is_first(a: Seq<Seq<char>>, b: Seq<Seq<char>>)
    ensures
        differs_at(a, b) is None <==> a == b,
        differs_at(a, b) matches Some(n) ==> {
            &&& n >= 1
            &&& a.take(n - 1) == b.take(n - 1)
            &&& (n <= a.len() || n <= b.len())
            &&& (n <= a.len() && n <= b.len() ==> a[n - 1] != b[n - 1])
        },
{
    lemma_common_prefix(a, b);
    let n = common_prefix(a, b);
    assert(a.take(n as int) =~= b.take(n as int));
    if n == a.len() && n == b.len() {
        assert(a =~= b);
    }
}

proof fn lemma_lcs_one(x: Seq<char>, b: Seq<Seq<char>>)
    ensures
        lcs_len(seq![x], b.push(x)) == 1,
        lcs_len(b.push(x), seq![x]) == 1,
    decreases b.len(),
{
    reveal_with_fuel(lcs_len, 2);
    let one = seq![x];
    assert(one.drop_first() =~= seq![]);
    if b.len() == 0 {
        assert(b.push(x) =~= one);
    } else {
        lemma_lcs_one(x, b.drop_first());
        assert(b.push(x).drop_first() =~= b.drop_first().push(x));
    }
}

proof fn lemma_lcs_push(a: Seq<Seq<char>>, b: Seq<Seq<char>>, x: Seq<char>)
    ensures
        lcs_len(a.push(x), b.push(x)) == lcs_len(a, b) + 1,
    decreases a.len() + b.len(),
{
    if a.len() == 0 {
        assert(a.push(x) =~= seq![x]);
        lemma_lcs_one(x, b);
    } else if b.len() == 0 {
        assert(b.push(x) =~= seq![x]);
        lemma_lcs_one(x, a);
    } else {
        assert(a.push(x).drop_first() =~= a.drop_first().push(x));
        assert(b.push(x).drop_first() =~= b.drop_first().push(x));
        if a[0] == b[0] {
            lemma_lcs_push(a.drop_first(), b.drop_first(), x);
        } else {
            lemma_lcs_push(a.drop_first(), b, x);
            lemma_lcs_push(a, b.drop_first(), x);
        }
    }
}

proof fn lemma_lcs_around(
    front: Seq<Seq<char>>,
    a: Seq<Seq<char>>,
    b: Seq<Seq<char>>,
    back: Seq<Seq<char>>,
)
    ensures
        lcs_len(front + a + back, front + b + back) == front.len() + lcs_len(a, b) + back.len(),
    decreases front.len() + back.len(),
{
    if front.len() > 0 {
        let rest = front.drop_first();
        lemma_lcs_around(rest, a, b, back);
        assert((front + a + back).drop_first() =~= rest + a + back);
        assert((front + b + back).drop_first() =~= rest + b + back);
    } else if back.len() > 0 {
        let rest = back.drop_last();
        lemma_lcs_around(front, a, b, rest);
        lemma_lcs_push(front + a + rest, front + b + rest, back.last());
        assert(front + a + back =~= (front + a + rest).push(back.last()));
        assert(front + b + back =~= (front + b + rest).push(back.last()));
    } else {
        assert(front + a + back =~= a);
        assert(front + b + back =~= b);
    }
}

proof fn lemma_subsequence_tail(c: Seq<Seq<char>>, a: Seq<Seq<char>>)
    requires
        is_subsequence(c, a),
        c.len() > 0,
    ensures
        a.len() > 0,
        is_subsequence(c.drop_first(), a.drop_first()),
    decreases a.len(),
{
    if !(c[0] == a[0] && is_subsequence(c.drop_first(), a.drop_first())) {
        let rest = a.drop_first();
        lemma_subsequence_tail(c, rest);
        // Dropping a further line of `a` can only make it harder.
        lemma_subsequence_wider(c.drop_first(), rest.drop_first(), rest[0]);
        assert(seq![rest[0]] + rest.drop_first() =~= rest);
    }
}

proof fn lemma_subsequence_wider(c: Seq<Seq<char>>, a: Seq<Seq<char>>, x: Seq<char>)
    requires
        is_subsequence(c, a),
    ensures
        is_subsequence(c, seq![x] + a),
{
    assert((seq![x] + a).drop_first() =~= a);
}

/// `lcs_len` is what its name says: no common subsequence is longer.
pub proof fn law_lcs_is_longest(a: Seq<Seq<char>>, b: Seq<Seq<char>>, c: Seq<Seq<char>>)
    requires
        is_subsequence(c, a),
        is_subsequence(c, b),
    ensures
        c.len() <= lcs_len(a, b),
    decreases a.len() + b.len(),
{
    if c.len() > 0 {
        lemma_subsequence_tail(c, a);
        lemma_subsequence_tail(c, b);
        if a[0] == b[0] {
            law_lcs_is_longest(a.drop_first(), b.drop_first(), c.drop_first());
        } else if is_subsequence(c, a.drop_first()) {
            law_lcs_is_longest(a.drop_first(), b, c);
        } else {
            law_lcs_is_longest(a, b.drop_first(), c);
        }
    }
}

proof fn lemma_kept_is_common(list: Seq<Change>)
    ensures
        is_subsequence(kept(list), old_side(list)),
        is_subsequence(kept(list), new_side(list)),
    decreases list.len(),
{
    if list.len() > 0 {
        let rest = list.drop_first();
        lemma_kept_is_common(rest);
        match list[0] {
            Change::Same(line) => {
                assert(kept(list).drop_first() =~= kept(rest));
                assert(old_side(list).drop_first() =~= old_side(rest));
                assert(new_side(list).drop_first() =~= new_side(rest));
            },
            Change::Delete(line) => {
                assert(kept(list) =~= kept(rest));
                assert(new_side(list) =~= new_side(rest));
                assert(old_side(list).drop_first() =~= old_side(rest));
            },
            Change::Insert(line) => {
                assert(kept(list) =~= kept(rest));
                assert(old_side(list) =~= old_side(rest));
                assert(new_side(list).drop_first() =~= new_side(rest));
            },
        }
    }
}

/// Within the size that is searched, a diff keeps as many lines as any diff could:
/// what it keeps is common to both sides, and nothing common to both is longer.
pub proof fn law_diff_keeps_the_most(a: Seq<Seq<char>>, b: Seq<Seq<char>>, c: Seq<Seq<char>>)
    requires
        searchable(a, b),
        is_subsequence(c, a),
        is_subsequence(c, b),
    ensures
        is_subsequence(kept(edits(a, b)), a),
        is_subsequence(kept(edits(a, b)), b),
        c.len() <= kept(edits(a, b)).len(),
{
    let prefix = common_prefix(a, b);
    let suffix = suffix_past(a, b, prefix);
    let front = a.take(prefix as int);
    let back = a.skip(a.len() - suffix);
    let a_mid = middle(a, prefix, suffix);
    let b_mid = middle(b, prefix, suffix);
    law_diff_restores_both_sides(a, b);
    lemma_kept_is_common(edits(a, b));
    lemma_parts(a, b);
    lemma_walk(a_mid, b_mid);
    lemma_sides_of_one_kind(front);
    lemma_sides_of_one_kind(back);
    lemma_sides_add(sames(front), walk(a_mid, b_mid));
    lemma_sides_add(sames(front) + walk(a_mid, b_mid), sames(back));
    lemma_lcs_around(front, a_mid, b_mid, back);
    law_lcs_is_longest(a, b, c);
}

// ---------------------------------------------------------------------------
// What a diff shows.
// ---------------------------------------------------------------------------

/// Every line that the two sides do not share is shown, with a minus where it is the
/// golden's and a plus where it is the actual one's.
pub proof fn law_every_change_is_shown(
    expected: Seq<char>,
    actual: Seq<char>,
    expected_label: Seq<char>,
    actual_label: Seq<char>,
    i: int,
)
    requires
        0 <= i < edits(lines(expected), lines(actual)).len(),
    ensures
        ({
            let text = unified_text(expected, actual, expected_label, actual_label);
            match edits(lines(expected), lines(actual))[i] {
                Change::Same(_) => true,
                Change::Delete(line) => has_text(text, seq!['-'] + line + seq!['\n']),
                Change::Insert(line) => has_text(text, seq!['+'] + line + seq!['\n']),
            }
        }),
        starts_with(
            unified_text(expected, actual, expected_label, actual_label),
            "--- expected ("@ + expected_label + ")\n+++ actual ("@ + actual_label + ")\n"@,
        ),
{
    let list = edits(lines(expected), lines(actual));
    let text = unified_text(expected, actual, expected_label, actual_label);
    let head = "--- expected ("@ + expected_label + ")\n+++ actual ("@ + actual_label + ")\n"@;
    let last = if lines(expected).len() == 0 {
        "(the golden is empty)\n"@
    } else {
        seq![]
    };
    assert(text.subrange(0, head.len() as int) =~= head);
    if !(list[i] is Same) {
        let (front, back) = lemma_shown(list, 0, i);
        assert(text =~= (head + front) + rendered(list[i]) + (back + last));
        lemma_has_text(head + front, rendered(list[i]), back + last);
    }
}

proof fn lemma_shown(list: Seq<Change>, at: int, i: int) -> (r: (Seq<char>, Seq<char>))
    requires
        0 <= at <= i < list.len(),
        !(list[i] is Same),
    ensures
        hunks(list, at) == r.0 + rendered(list[i]) + r.1,
    decreases list.len() - at,
{
    if !(list[at] is Same) {
        if at == i {
            assert(hunks(list, at) =~= seq![] + rendered(list[i]) + hunks(list, at + 1));
            (seq![], hunks(list, at + 1))
        } else {
            let (front, back) = lemma_shown(list, at + 1, i);
            assert(hunks(list, at) =~= (rendered(list[at]) + front) + rendered(list[i]) + back);
            (rendered(list[at]) + front, back)
        }
    } else {
        let end = run_end(list, at);
        lemma_run_end(list, at);
        lemma_run_is_same(list, at, i);
        let (front, back) = lemma_shown(list, end, i);
        assert(hunks(list, at) =~= (run_text(list, at, end) + front) + rendered(list[i]) + back);
        (run_text(list, at, end) + front, back)
    }
}

/// A run of unchanged lines ends before a change.
proof fn lemma_run_is_same(list: Seq<Change>, at: int, i: int)
    requires
        0 <= at <= i < list.len(),
        !(list[i] is Same),
    ensures
        run_end(list, at) <= i,
    decreases i - at,
{
    if at < i && list[at] is Same {
        lemma_run_is_same(list, at + 1, i);
    }
}

/// Unchanged lines are shown as they are where there are no more than seven of them in a
/// row; of more, the three next to a change are shown, and how many are not is said.
pub proof fn law_unchanged_lines_are_shown_or_counted(list: Seq<Change>, at: int, end: int)
    requires
        0 <= at <= end <= list.len(),
    ensures
        end - at <= 7 ==> run_text(list, at, end) == rendered_all(list.subrange(at, end)),
        end - at > 7 && 0 < at && end < list.len() ==> run_text(list, at, end) == rendered_all(
            list.subrange(at, at + 3),
        ) + "@@ "@ + decimal((end - at - 6) as nat) + " unchanged line(s) @@\n"@ + rendered_all(
            list.subrange(end - 3, end),
        ),
        end - at > 7 && 0 == at && end < list.len() ==> run_text(list, at, end) == "@@ "@
            + decimal((end - 3) as nat) + " unchanged line(s) @@\n"@ + rendered_all(
            list.subrange(end - 3, end),
        ),
        end - at > 7 && 0 < at && end == list.len() ==> run_text(list, at, end) == rendered_all(
            list.subrange(at, at + 3),
        ) + "@@ "@ + decimal((end - at - 3) as nat) + " unchanged line(s) @@\n"@,
{
    if end - at > 7 {
        if at == 0 {
            assert(list.subrange(0, 0) =~= seq![]);
            assert(rendered_all(list.subrange(at, at + 0)) =~= seq![]);
            assert(run_text(list, at, end) =~= (if end == list.len() {
                run_text(list, at, end)
            } else {
                "@@ "@ + decimal((end - 3) as nat) + " unchanged line(s) @@\n"@ + rendered_all(
                    list.subrange(end - 3, end),
                )
            }));
        } else if end == list.len() {
            assert(list.subrange(end - 0, end) =~= seq![]);
            assert(rendered_all(list.subrange(end - 0, end)) =~= seq![]);
            assert(run_text(list, at, end) =~= rendered_all(list.subrange(at, at + 3)) + "@@ "@
                + decimal((end - at - 3) as nat) + " unchanged line(s) @@\n"@);
        }
    }
}

} // verus!

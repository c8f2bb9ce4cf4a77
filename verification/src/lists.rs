//! Implementor lists.
//!
//! rustc elides a long list of a trait's implementors itself, but where it draws
//! that line has moved between releases, and the count it prints in place of the
//! tail is a fact about the crate graph rather than about the fixture. The count
//! becomes `$N`, and a list long enough to be elided is cut to the shape the
//! elision produces.
use crate::rewrite::OTHERS;
use crate::text::{
    before, byte_len, bytes_in, copy_of, count_leading, ends_with, has_prefix, has_suffix,
    is_digit, is_whitespace, is_word, leading, lemma_byte_len_add, lemma_leading, lemma_leading_is,
    push_text, starts_with, texts, trim_start, trimmed_start, width, Class,
};
use vstd::prelude::*;

verus! {

/// A heading whose indented lines are a list of trait implementors.
pub const HEADING: &'static str = "= help: the following types implement trait ";

/// The other heading rustc gives such a list.
pub const OTHER_HEADING: &'static str = "= help: the following other types implement trait ";

/// What rustc prints in place of a list's tail, once the count is `$N`.
pub const SUMMARY: &'static str = "and $N others";

/// The column at or past which a line under one of those headings is an entry.
///
/// rustc indents an entry ten columns past the `= help:` above it, and that
/// `= help:` sits one column past a gutter at least one wide, so twelve is the
/// narrowest an entry can be.
pub const ENTRY_COLUMN: usize = 12;

/// The entry position that becomes the summary rather than an entry: a list of
/// ten or more keeps its first eight entries and summarizes the rest.
pub const SUMMARIZED_AT: usize = 9;

/// The line, if it is `and <digits> others`, with the digits replaced.
pub open spec fn count_hidden(line: Seq<char>) -> Seq<char> {
    let body = trim_start(line);
    let start = "and "@.len();
    let end = body.len() - " others"@.len();
    if starts_with(body, "and "@) && ends_with(body, " others"@) && start < end && (forall|i: int|
        start <= i < end ==> is_digit(#[trigger] body[i])) {
        line.take(line.len() - body.len()) + "and "@ + OTHERS@ + " others"@
    } else {
        line
    }
}

/// Whether a line is a heading whose indented lines are implementors.
pub open spec fn opens_list(line: Seq<char>) -> bool {
    starts_with(trim_start(line), HEADING@) || starts_with(trim_start(line), OTHER_HEADING@)
}

/// The column a line's text starts at, in bytes.
pub open spec fn column(line: Seq<char>) -> nat {
    byte_len(line.take(leading(line, Class::Whitespace) as int))
}

/// How many characters at the front of `s` fit in `bytes` bytes.
pub open spec fn chars_within(s: Seq<char>, bytes: int) -> nat
    decreases s.len(),
{
    if s.len() == 0 || width(s[0]) > bytes {
        0
    } else {
        1 + chars_within(s.drop_first(), bytes - width(s[0]))
    }
}

/// The summary that takes the place of the entry `line`, two columns in from it:
/// it reads as prose about the list rather than as another entry in it.
pub open spec fn summary_for(line: Seq<char>) -> Seq<char> {
    line.take(chars_within(line, column(line) - 2) as int) + SUMMARY@
}

/// Whether the line after `index` sits at the same column, which is what makes
/// the one there the start of a tail.
pub open spec fn goes_on(lines: Seq<Seq<char>>, index: int) -> bool {
    index + 1 < lines.len() && column(lines[index + 1]) == column(lines[index])
}

/// The lines from `index` on, with every long implementor list cut short.
/// `listed` is how many entries the list that is open has had so far.
pub open spec fn truncate_from(lines: Seq<Seq<char>>, index: int, listed: Option<nat>) -> Seq<
    Seq<char>,
>
    decreases lines.len() - index,
{
    if !(0 <= index < lines.len()) {
        seq![]
    } else {
        let line = lines[index];
        if opens_list(line) {
            seq![line] + truncate_from(lines, index + 1, Some(0))
        } else {
            match listed {
                None => seq![line] + truncate_from(lines, index + 1, None),
                Some(seen) => if column(line) < ENTRY_COLUMN || trim_start(line) == SUMMARY@ {
                    seq![line] + truncate_from(lines, index + 1, None)
                } else if seen + 1 > SUMMARIZED_AT {
                    truncate_from(lines, index + 1, Some(seen + 1))
                } else if seen + 1 == SUMMARIZED_AT && goes_on(lines, index) {
                    seq![summary_for(line)] + truncate_from(lines, index + 1, Some(seen + 1))
                } else {
                    seq![line] + truncate_from(lines, index + 1, Some(seen + 1))
                },
            }
        }
    }
}

/// The lines with every long implementor list cut short.
pub open spec fn truncated(lines: Seq<Seq<char>>) -> Seq<Seq<char>> {
    truncate_from(lines, 0, None)
}

/// `and 568 others` becomes `and $N others`.
///
/// The count is how many implementors of a trait rustc chose not to name. It
/// answers a question about the crate graph, not about the fixture.
pub fn hide_other_count(line: &[char]) -> (r: Vec<char>)
    ensures
        r@ == count_hidden(line@),
{
    proof {
        reveal_strlit("and ");
        reveal_strlit(" others");
    }
    let body = trimmed_start(line);
    // An empty count is no count: `and  others` must not gain a `$N` standing for
    // a number rustc never printed, and in `and others` the two words overlap.
    if !has_prefix(body, "and ") || !has_suffix(body, " others") || body.len() <= 11 {
        return copy_of(line);
    }
    let end: usize = body.len() - 7;
    let mut i: usize = 4;
    while i < end
        invariant
            4 <= i <= end,
            end == body@.len() - 7,
            body@ == trim_start(line@),
            "and "@.len() == 4,
            " others"@.len() == 7,
            forall|k: int| 4 <= k < i ==> is_digit(#[trigger] body@[k]),
        decreases end - i,
    {
        if !Class::Digit.contains(body[i]) {
            assert(!is_digit(body@[i as int]));
            return copy_of(line);
        }
        i += 1;
    }
    let mut out = copy_of(before(line, line.len() - body.len()));
    push_text(&mut out, "and ");
    push_text(&mut out, OTHERS);
    push_text(&mut out, " others");
    out
}

/// Whether a line is a heading whose indented lines are implementors.
fn is_list_heading(line: &[char]) -> (r: bool)
    ensures
        r == opens_list(line@),
{
    let body = trimmed_start(line);
    has_prefix(body, HEADING) || has_prefix(body, OTHER_HEADING)
}

/// The column a line's text starts at, in bytes.
fn column_of(line: &[char]) -> (r: u128)
    ensures
        r == column(line@),
{
    bytes_in(before(line, count_leading(line, Class::Whitespace)))
}

/// How many characters at the front of `s` fit in `bytes` bytes.
fn fitting(s: &[char], bytes: u128) -> (r: usize)
    ensures
        r == chars_within(s@, bytes as int),
        r <= s@.len(),
{
    let mut left: u128 = bytes;
    let mut i: usize = 0;
    assert(s@.skip(0) =~= s@);
    while i < s.len()
        invariant
            i <= s@.len(),
            i + chars_within(s@.skip(i as int), left as int) == chars_within(s@, bytes as int),
        decreases s@.len() - i,
    {
        assert(s@.skip(i as int).drop_first() =~= s@.skip(i + 1));
        let u: u32 = s[i] as u32;
        let w: u128 = if u <= 0x7F {
            1
        } else if u <= 0x7FF {
            2
        } else if u <= 0xFFFF {
            3
        } else {
            4
        };
        if w > left {
            return i;
        }
        left = left - w;
        i += 1;
    }
    i
}

/// Whether the list still has entries after `index`, which is what makes the one
/// there a summary rather than the last of a list short enough to keep whole.
///
/// The next line has to sit at exactly the same column: a list whose last entry
/// is indented differently keeps all nine and gets no summary.
pub fn continues_past(lines: &Vec<Vec<char>>, index: usize) -> (r: bool)
    requires
        index < lines@.len(),
    ensures
        r == goes_on(texts(lines@), index as int),
{
    assert(texts(lines@)[index as int] == lines@[index as int]@);
    if index < lines.len() - 1 {
        assert(texts(lines@)[index + 1] == lines@[index + 1]@);
        column_of(lines[index + 1].as_slice()) == column_of(lines[index].as_slice())
    } else {
        false
    }
}

/// Summarize the tail of an implementor list that rustc printed in full.
///
/// Truncating to the shape rustc's own elision produces means that a list that
/// crosses its threshold in either direction reads the same afterwards. The list
/// ends at the first line that is not indented far enough to be an entry, and at
/// a summary rustc wrote itself.
pub fn truncate_implementor_lists(lines: &Vec<Vec<char>>) -> (r: Vec<Vec<char>>)
    ensures
        texts(r@) == truncated(texts(lines@)),
{
    let mut out: Vec<Vec<char>> = Vec::new();
    let ghost all = texts(lines@);
    let mut listed: Option<usize> = None;
    let mut i: usize = 0;
    assert(texts(out@) =~= seq![]);
    while i < lines.len()
        invariant
            i <= lines@.len(),
            all == texts(lines@),
            listed matches Some(seen) ==> seen <= i,
            texts(out@) + truncate_from(
                all,
                i as int,
                match listed {
                    Some(seen) => Some(seen as nat),
                    None => None,
                },
            ) =~= truncated(all),
        decreases lines@.len() - i,
    {
        let line = lines[i].as_slice();
        assert(all[i as int] == line@);
        let ghost done = texts(out@);
        if is_list_heading(line) {
            listed = Some(0);
            out.push(copy_of(line));
            assert(texts(out@) =~= done.push(line@));
        } else {
            match listed {
                None => {
                    out.push(copy_of(line));
                    assert(texts(out@) =~= done.push(line@));
                },
                Some(seen) => {
                    let entry: u128 = column_of(line);
                    if entry < ENTRY_COLUMN as u128 || is_word(trimmed_start(line), SUMMARY) {
                        listed = None;
                        out.push(copy_of(line));
                        assert(texts(out@) =~= done.push(line@));
                    } else {
                        listed = Some(seen + 1);
                        if seen + 1 > SUMMARIZED_AT {
                        } else if seen + 1 == SUMMARIZED_AT && continues_past(lines, i) {
                            let mut summary = copy_of(before(line, fitting(line, entry - 2)));
                            push_text(&mut summary, SUMMARY);
                            out.push(summary);
                            assert(texts(out@) =~= done.push(summary_for(line@)));
                        } else {
                            out.push(copy_of(line));
                            assert(texts(out@) =~= done.push(line@));
                        }
                    }
                },
            }
        }
        i += 1;
    }
    out
}

// ---------------------------------------------------------------------------
// What cutting a list promises.
// ---------------------------------------------------------------------------

/// White space in front of text that has none is all that trimming takes.
proof fn lemma_trim_padding(pad: Seq<char>, text: Seq<char>)
    requires
        forall|i: int| 0 <= i < pad.len() ==> Class::Whitespace.has(pad[i]),
        text.len() > 0,
        !Class::Whitespace.has(text[0]),
    ensures
        trim_start(pad + text) == text,
        leading(pad + text, Class::Whitespace) == pad.len(),
{
    let line = pad + text;
    assert forall|i: int| 0 <= i < pad.len() implies Class::Whitespace.has(line[i]) by {
        assert(line[i] == pad[i]);
    }
    assert(line[pad.len() as int] == text[0]);
    lemma_leading_is(line, Class::Whitespace, pad.len());
    assert(line.skip(pad.len() as int) =~= text);
}

/// How many implementors rustc chose not to name makes no difference.
pub proof fn law_the_count_makes_no_difference(pad: Seq<char>, count: Seq<char>)
    requires
        forall|i: int| 0 <= i < pad.len() ==> Class::Whitespace.has(pad[i]),
        count.len() > 0,
        forall|i: int| 0 <= i < count.len() ==> is_digit(count[i]),
    ensures
        count_hidden(pad + ("and "@ + count + " others"@)) == pad + SUMMARY@,
{
    reveal_strlit("and ");
    reveal_strlit(" others");
    reveal_strlit("$N");
    reveal_strlit("and $N others");
    let body = "and "@ + count + " others"@;
    let line = pad + body;
    assert(body[0] == 'a');
    lemma_trim_padding(pad, body);
    assert(body.subrange(0, 4) =~= "and "@);
    assert(body.subrange(body.len() - 7, body.len() as int) =~= " others"@);
    assert forall|i: int| 4 <= i < body.len() - 7 implies is_digit(#[trigger] body[i]) by {
        assert(body[i] == count[i - 4]);
    }
    assert(line.take(line.len() - body.len()) =~= pad);
    assert(pad + "and "@ + OTHERS@ + " others"@ =~= pad + SUMMARY@);
}

/// Whether a line is an entry of an implementor list at this column.
pub open spec fn is_entry(line: Seq<char>, at: nat) -> bool {
    column(line) == at && at >= ENTRY_COLUMN && !opens_list(line) && trim_start(line) != SUMMARY@
}

/// Whether what follows a list is not part of it: there is nothing, or a line set in
/// too little to be an entry, or the heading of another list.
pub open spec fn ends_list(rest: Seq<Seq<char>>) -> bool {
    rest.len() == 0 || opens_list(rest[0]) || column(rest[0]) < ENTRY_COLUMN
}

proof fn lemma_truncate_shift(lines: Seq<Seq<char>>, k: int, index: int, listed: Option<nat>)
    requires
        0 <= k <= lines.len(),
        0 <= index,
    ensures
        truncate_from(lines, k + index, listed) == truncate_from(lines.skip(k), index, listed),
    decreases lines.len() - k - index,
{
    let rest = lines.skip(k);
    if k + index < lines.len() {
        assert(rest[index] == lines[k + index]);
        if index + 1 < rest.len() {
            assert(rest[index + 1] == lines[k + index + 1]);
        }
        lemma_truncate_shift(lines, k, index + 1, Some(0));
        lemma_truncate_shift(lines, k, index + 1, None);
        if let Some(seen) = listed {
            lemma_truncate_shift(lines, k, index + 1, Some(seen + 1));
        }
    }
}

/// One step of the cut, taken off the front.
proof fn lemma_truncate_first(lines: Seq<Seq<char>>, listed: Option<nat>)
    requires
        lines.len() > 0,
    ensures
        truncate_from(lines, 1, listed) == truncate_from(lines.drop_first(), 0, listed),
{
    lemma_truncate_shift(lines, 1, 0, listed);
    assert(lines.skip(1) =~= lines.drop_first());
}

/// What ends a list is treated the same however much of the list came before.
pub proof fn lemma_truncate_rest(rest: Seq<Seq<char>>, listed: Option<nat>)
    requires
        ends_list(rest),
    ensures
        truncate_from(rest, 0, listed) == truncate_from(rest, 0, None),
{
}

/// The first entries of a list are kept.
proof fn lemma_first_entries(
    entries: Seq<Seq<char>>,
    rest: Seq<Seq<char>>,
    at: nat,
    seen: nat,
    n: nat,
)
    requires
        n <= entries.len(),
        seen + n < SUMMARIZED_AT,
        forall|i: int| 0 <= i < entries.len() ==> is_entry(#[trigger] entries[i], at),
    ensures
        truncate_from(entries + rest, 0, Some(seen)) == entries.take(n as int) + truncate_from(
            entries.skip(n as int) + rest,
            0,
            Some(seen + n),
        ),
    decreases n,
{
    let all = entries + rest;
    if n == 0 {
        assert(entries.skip(0) =~= entries);
        assert(entries.take(0) + truncate_from(all, 0, Some(seen)) =~= truncate_from(
            all,
            0,
            Some(seen),
        ));
    } else {
        let fewer = entries.drop_first();
        assert(is_entry(entries[0], at));
        assert(all[0] == entries[0]);
        lemma_truncate_first(all, Some(seen + 1));
        assert(all.drop_first() =~= fewer + rest);
        assert forall|i: int| 0 <= i < fewer.len() implies is_entry(#[trigger] fewer[i], at) by {
            assert(fewer[i] == entries[i + 1]);
        }
        lemma_first_entries(fewer, rest, at, seen + 1, (n - 1) as nat);
        assert(fewer.skip(n - 1) =~= entries.skip(n as int));
        assert(seq![entries[0]] + fewer.take(n - 1) =~= entries.take(n as int));
        assert(truncate_from(all, 0, Some(seen)) =~= entries.take(n as int) + truncate_from(
            entries.skip(n as int) + rest,
            0,
            Some(seen + n),
        ));
    }
}

/// The last entries of a list are dropped.
proof fn lemma_last_entries(entries: Seq<Seq<char>>, rest: Seq<Seq<char>>, at: nat, seen: nat)
    requires
        seen >= SUMMARIZED_AT,
        ends_list(rest),
        forall|i: int| 0 <= i < entries.len() ==> is_entry(#[trigger] entries[i], at),
    ensures
        truncate_from(entries + rest, 0, Some(seen)) == truncate_from(rest, 0, None),
    decreases entries.len(),
{
    let all = entries + rest;
    if entries.len() == 0 {
        assert(all =~= rest);
        lemma_truncate_rest(rest, Some(seen));
    } else {
        let fewer = entries.drop_first();
        assert(is_entry(entries[0], at));
        assert(all[0] == entries[0]);
        lemma_truncate_first(all, Some(seen + 1));
        assert(all.drop_first() =~= fewer + rest);
        assert forall|i: int| 0 <= i < fewer.len() implies is_entry(#[trigger] fewer[i], at) by {
            assert(fewer[i] == entries[i + 1]);
        }
        lemma_last_entries(fewer, rest, at, seen + 1);
    }
}

proof fn lemma_chars_within(s: Seq<char>, bytes: int)
    requires
        bytes >= 0,
    ensures
        chars_within(s, bytes) <= s.len(),
        byte_len(s.take(chars_within(s, bytes) as int)) <= bytes,
    decreases s.len(),
{
    let n = chars_within(s, bytes) as int;
    if n > 0 {
        let rest = s.drop_first();
        lemma_chars_within(rest, bytes - width(s[0]));
        assert(s.take(n).drop_first() =~= rest.take(n - 1));
    }
}

/// The summary that takes an entry's place reads as a summary.
proof fn lemma_summary_is_summary(line: Seq<char>)
    requires
        column(line) >= ENTRY_COLUMN,
    ensures
        trim_start(summary_for(line)) == SUMMARY@,
        !opens_list(summary_for(line)),
{
    reveal_strlit("and $N others");
    let n = chars_within(line, column(line) - 2) as int;
    lemma_summary_set_in(line);
    let pad = line.take(n);
    assert forall|i: int| 0 <= i < pad.len() implies Class::Whitespace.has(pad[i]) by {
        assert(pad[i] == line[i]);
    }
    assert(SUMMARY@[0] == 'a');
    lemma_trim_padding(pad, SUMMARY@);
    reveal_strlit("= help: the following types implement trait ");
    reveal_strlit("= help: the following other types implement trait ");
    assert(!starts_with(SUMMARY@, HEADING@));
    assert(!starts_with(SUMMARY@, OTHER_HEADING@));
}

/// Lines that go the same way go the same way whatever comes before them.
proof fn lemma_truncate_behind(
    before: Seq<Seq<char>>,
    a: Seq<Seq<char>>,
    b: Seq<Seq<char>>,
    listed: Option<nat>,
)
    requires
        a.len() > 0,
        b.len() > 0,
        a[0] == b[0],
        forall|l: Option<nat>|
            #[trigger] truncate_from(a, 0, l) == truncate_from(b, 0, l),
    ensures
        truncate_from(before + a, 0, listed) == truncate_from(before + b, 0, listed),
    decreases before.len(),
{
    if before.len() == 0 {
        assert(before + a =~= a);
        assert(before + b =~= b);
    } else {
        let rest = before.drop_first();
        let left = before + a;
        let right = before + b;
        assert(left.drop_first() =~= rest + a);
        assert(right.drop_first() =~= rest + b);
        assert(left[0] == right[0]);
        assert(left[1] == right[1]);
        lemma_truncate_first(left, None);
        lemma_truncate_first(right, None);
        lemma_truncate_behind(rest, a, b, None);
        lemma_truncate_first(left, Some(0));
        lemma_truncate_first(right, Some(0));
        lemma_truncate_behind(rest, a, b, Some(0));
        if let Some(seen) = listed {
            lemma_truncate_first(left, Some(seen + 1));
            lemma_truncate_first(right, Some(seen + 1));
            lemma_truncate_behind(rest, a, b, Some(seen + 1));
        }
    }
}

/// Whether a line is one of these, or the summary that takes the place of an entry among
/// them.
pub open spec fn is_kept(lines: Seq<Seq<char>>, line: Seq<char>) -> bool {
    exists|k: int|
        0 <= k < lines.len() && (line == #[trigger] lines[k] || (column(lines[k]) >= ENTRY_COLUMN
            && line == summary_for(lines[k])))
}

/// What the lines in front come to, and the list they leave open, where those behind
/// begin alike: with the same line, or with one that is set in too little to be an entry.
pub proof fn lemma_truncate_front(
    before: Seq<Seq<char>>,
    a: Seq<Seq<char>>,
    b: Seq<Seq<char>>,
    listed: Option<nat>,
) -> (r: (Seq<Seq<char>>, Option<nat>))
    requires
        a.len() > 0,
        b.len() > 0,
        a[0] == b[0] || (column(a[0]) < ENTRY_COLUMN && column(b[0]) < ENTRY_COLUMN),
    ensures
        truncate_from(before + a, 0, listed) == r.0 + truncate_from(a, 0, r.1),
        truncate_from(before + b, 0, listed) == r.0 + truncate_from(b, 0, r.1),
        before.len() == 0 ==> r.0.len() == 0,
        before.len() > 0 && before.last().len() == 0 ==> r.0.len() > 0 && r.0.last().len() == 0,
        forall|i: int| 0 <= i < r.0.len() ==> is_kept(before, #[trigger] r.0[i]),
    decreases before.len(),
{
    let left = before + a;
    let right = before + b;
    if before.len() == 0 {
        assert(left =~= a);
        assert(right =~= b);
        let r = (Seq::<Seq<char>>::empty(), listed);
        assert(r.0 + truncate_from(a, 0, r.1) =~= truncate_from(a, 0, r.1));
        assert(r.0 + truncate_from(b, 0, r.1) =~= truncate_from(b, 0, r.1));
        r
    } else {
        let rest = before.drop_first();
        let line = before[0];
        let next = next_listed(line, listed);
        let here = kept_of(left, listed);
        assert(left[0] == line && right[0] == line);
        assert(left.drop_first() =~= rest + a);
        assert(right.drop_first() =~= rest + b);
        lemma_truncate_first(left, next);
        lemma_truncate_first(right, next);
        let (done, last) = lemma_truncate_front(rest, a, b, next);
        assert(kept_of(right, listed) == here) by {
            if rest.len() > 0 {
                assert(left[1] == rest[0] && right[1] == rest[0]);
            } else {
                assert(left[1] == a[0] && right[1] == b[0]);
            }
        }
        lemma_truncate_one(left, listed);
        lemma_truncate_one(right, listed);
        assert(truncate_from(left, 0, listed) =~= (here + done) + truncate_from(a, 0, last));
        assert(truncate_from(right, 0, listed) =~= (here + done) + truncate_from(b, 0, last));
        let all = here + done;
        assert forall|i: int| 0 <= i < all.len() implies is_kept(before, #[trigger] all[i]) by {
            if i < here.len() {
                assert(all[i] == here[0]);
                assert(before[0] == line);
            } else {
                assert(all[i] == done[i - here.len()]);
                assert(is_kept(rest, done[i - here.len()]));
                let k = choose|k: int|
                    0 <= k < rest.len() && (all[i] == #[trigger] rest[k] || (column(rest[k])
                        >= ENTRY_COLUMN && all[i] == summary_for(rest[k])));
                assert(rest[k] == before[k + 1]);
            }
        }
        if before.last().len() == 0 {
            if rest.len() == 0 {
                lemma_blank_kept(line);
                assert(all.last() == line);
            } else {
                assert(rest.last() == before.last());
                assert(all.last() == done.last());
            }
        }
        (all, last)
    }
}

/// The list that is open after a line.
pub open spec fn next_listed(line: Seq<char>, listed: Option<nat>) -> Option<nat> {
    if opens_list(line) {
        Some(0)
    } else {
        match listed {
            None => None,
            Some(seen) => if column(line) < ENTRY_COLUMN || trim_start(line) == SUMMARY@ {
                None
            } else {
                Some(seen + 1)
            },
        }
    }
}

/// What is kept of the first line.
pub open spec fn kept_of(lines: Seq<Seq<char>>, listed: Option<nat>) -> Seq<Seq<char>> {
    let line = lines[0];
    if listed is Some && next_listed(line, listed) is Some && !opens_list(line) {
        if listed->0 + 1 > SUMMARIZED_AT {
            seq![]
        } else if listed->0 + 1 == SUMMARIZED_AT && goes_on(lines, 0) {
            seq![summary_for(line)]
        } else {
            seq![line]
        }
    } else {
        seq![line]
    }
}

/// One step of the cut.
pub proof fn lemma_truncate_one(lines: Seq<Seq<char>>, listed: Option<nat>)
    requires
        lines.len() > 0,
    ensures
        truncate_from(lines, 0, listed) == kept_of(lines, listed) + truncate_from(
            lines.drop_first(),
            0,
            next_listed(lines[0], listed),
        ),
{
    let next = next_listed(lines[0], listed);
    let rest = truncate_from(lines, 1, next);
    lemma_truncate_first(lines, next);
    assert(Seq::<Seq<char>>::empty() + rest =~= rest);
}

/// A blank line is no heading of a list, and no entry.
pub proof fn lemma_blank_kept(line: Seq<char>)
    requires
        line.len() == 0,
    ensures
        !opens_list(line),
        column(line) == 0,
{
    reveal_strlit("= help: the following types implement trait ");
    reveal_strlit("= help: the following other types implement trait ");
    assert(line.take(0) =~= seq![]);
}

/// The summary of a list is set in, by white space alone.
pub proof fn lemma_summary_set_in(line: Seq<char>)
    requires
        column(line) >= ENTRY_COLUMN,
    ensures
        ({
            let n = chars_within(line, column(line) - 2) as int;
            &&& 0 < n <= line.len()
            &&& forall|i: int| 0 <= i < n ==> Class::Whitespace.has(#[trigger] line[i])
        }),
{
    let lead = leading(line, Class::Whitespace) as int;
    let n = chars_within(line, column(line) - 2) as int;
    lemma_leading(line, Class::Whitespace);
    lemma_chars_within(line, column(line) - 2);
    if n > lead {
        lemma_byte_len_add(line.take(lead), line.subrange(lead, n));
        assert(line.take(lead) + line.subrange(lead, n) =~= line.take(n));
    }
    assert(line.len() > 0);
}

/// A list of implementors that rustc printed in full and one that it elided itself
/// read the same, wherever rustc draws that line: ten entries or more come to the
/// first eight and a summary, which is what the elided list is already.
pub proof fn law_full_and_elided_lists_read_the_same(
    before: Seq<Seq<char>>,
    heading: Seq<char>,
    entries: Seq<Seq<char>>,
    rest: Seq<Seq<char>>,
    at: nat,
)
    requires
        opens_list(heading),
        entries.len() > SUMMARIZED_AT,
        forall|i: int| 0 <= i < entries.len() ==> is_entry(#[trigger] entries[i], at),
        ends_list(rest),
    ensures
        truncated(before + (seq![heading] + (entries + rest))) == truncated(
            before + (seq![heading] + (entries.take(SUMMARIZED_AT - 1) + (seq![
                summary_for(entries[SUMMARIZED_AT - 1]),
            ] + rest))),
        ),
{
    let n = SUMMARIZED_AT - 1;
    let summary = summary_for(entries[n]);
    let full = entries + rest;
    let short = entries.take(n) + (seq![summary] + rest);
    let a = seq![heading] + full;
    let b = seq![heading] + short;

    // The list printed in full.
    lemma_first_entries(entries, rest, at, 0, n as nat);
    let last = entries.skip(n);
    let tail = last + rest;
    assert(last[0] == entries[n]);
    assert(last[1] == entries[n + 1]);
    assert(is_entry(entries[n], at));
    assert(is_entry(entries[n + 1], at));
    assert(tail[0] == last[0]);
    assert(tail[1] == last[1]);
    assert(goes_on(tail, 0));
    lemma_truncate_first(tail, Some(SUMMARIZED_AT as nat));
    let dropped = last.drop_first();
    assert(tail.drop_first() =~= dropped + rest);
    assert forall|i: int| 0 <= i < dropped.len() implies is_entry(#[trigger] dropped[i], at) by {
        assert(dropped[i] == entries[n + 1 + i]);
    }
    lemma_last_entries(dropped, rest, at, SUMMARIZED_AT as nat);
    assert(truncate_from(tail, 0, Some(n as nat)) == seq![summary] + truncate_from(rest, 0, None));

    // The list rustc elided.
    let kept = entries.take(n);
    assert forall|i: int| 0 <= i < kept.len() implies is_entry(#[trigger] kept[i], at) by {
        assert(kept[i] == entries[i]);
    }
    let elided = seq![summary] + rest;
    lemma_first_entries(kept, elided, at, 0, n as nat);
    assert(kept.take(n) =~= kept);
    assert(kept.skip(n) + elided =~= elided);
    lemma_summary_is_summary(entries[n]);
    lemma_truncate_first(elided, None);
    assert(elided.drop_first() =~= rest);
    assert(truncate_from(elided, 0, Some(n as nat)) == seq![summary] + truncate_from(rest, 0, None));

    assert(truncate_from(full, 0, Some(0)) == truncate_from(short, 0, Some(0)));
    assert(a.drop_first() =~= full);
    assert(b.drop_first() =~= short);
    lemma_truncate_first(a, Some(0));
    lemma_truncate_first(b, Some(0));
    assert forall|l: Option<nat>| #[trigger] truncate_from(a, 0, l) == truncate_from(b, 0, l) by {
    }
    lemma_truncate_behind(before, a, b, None);
}

// ---------------------------------------------------------------------------
// What is left alone.
// ---------------------------------------------------------------------------

/// Only a line that says how many others there are has its count hidden, and it keeps its
/// place: any other line stays as it is.
pub proof fn law_only_a_count_is_hidden(line: Seq<char>)
    ensures
        count_hidden(line) != line ==> exists|count: Seq<char>| #[trigger]
            count.len() > 0 && (forall|i: int| 0 <= i < count.len() ==> is_digit(count[i]))
                && trim_start(line) == "and "@ + count + " others"@ && count_hidden(line)
                == line.take(line.len() - trim_start(line).len()) + "and $N others"@,
{
    reveal_strlit("and ");
    reveal_strlit(" others");
    reveal_strlit("$N");
    reveal_strlit("and $N others");
    if count_hidden(line) != line {
        let body = trim_start(line);
        let count = body.subrange(4, body.len() - 7);
        assert forall|i: int| 0 <= i < count.len() implies is_digit(count[i]) by {
            assert(count[i] == body[i + 4]);
        }
        assert(body.subrange(0, 4) =~= "and "@);
        assert(body =~= body.subrange(0, 4) + count + body.subrange(
            body.len() - 7,
            body.len() as int,
        ));
        let pad = line.take(line.len() - body.len());
        assert(pad + "and "@ + OTHERS@ + " others"@ =~= pad + "and $N others"@);
        assert(count.len() > 0);
    }
}

/// A line heads a list if it says that the following types, or the following other types,
/// implement a trait, whichever trait it is and however far it is set in.
pub proof fn law_what_heads_a_list(pad: Seq<char>, name: Seq<char>)
    requires
        forall|i: int| 0 <= i < pad.len() ==> Class::Whitespace.has(pad[i]),
    ensures
        opens_list(pad + ("= help: the following types implement trait "@ + name)),
        opens_list(pad + ("= help: the following other types implement trait "@ + name)),
{
    reveal_strlit("= help: the following types implement trait ");
    reveal_strlit("= help: the following other types implement trait ");
    let one = "= help: the following types implement trait "@ + name;
    let other = "= help: the following other types implement trait "@ + name;
    lemma_trim_padding(pad, one);
    lemma_trim_padding(pad, other);
    assert(one.subrange(0, HEADING@.len() as int) =~= HEADING@);
    assert(other.subrange(0, OTHER_HEADING@.len() as int) =~= OTHER_HEADING@);
}

/// Lines that no list is headed in stay as they are, however far they are set in and
/// however many there are.
pub proof fn law_lines_outside_lists_stay(lines: Seq<Seq<char>>)
    requires
        forall|i: int| 0 <= i < lines.len() ==> !opens_list(#[trigger] lines[i]),
    ensures
        truncated(lines) == lines,
    decreases lines.len(),
{
    if lines.len() > 0 {
        let rest = lines.drop_first();
        assert(!opens_list(lines[0]));
        assert forall|i: int| 0 <= i < rest.len() implies !opens_list(#[trigger] rest[i]) by {
            assert(rest[i] == lines[i + 1]);
        }
        law_lines_outside_lists_stay(rest);
        lemma_truncate_first(lines, None);
        assert(truncated(lines) =~= lines);
    }
}

/// A list of up to nine entries stays whole, wherever it stands, and so do the lines behind
/// it that are not part of it.
pub proof fn law_a_short_list_stays_whole(
    before: Seq<Seq<char>>,
    heading: Seq<char>,
    entries: Seq<Seq<char>>,
    rest: Seq<Seq<char>>,
    at: nat,
)
    requires
        forall|i: int| 0 <= i < before.len() ==> !opens_list(#[trigger] before[i]),
        opens_list(heading),
        entries.len() <= 9,
        forall|i: int| 0 <= i < entries.len() ==> is_entry(#[trigger] entries[i], at),
        rest.len() == 0 || column(rest[0]) < ENTRY_COLUMN,
        forall|i: int| 0 <= i < rest.len() ==> !opens_list(#[trigger] rest[i]),
    ensures
        truncated(before + (seq![heading] + (entries + rest))) == before + (seq![heading] + (
        entries + rest)),
    decreases before.len(),
{
    let all = before + (seq![heading] + (entries + rest));
    if before.len() > 0 {
        let less = before.drop_first();
        assert(!opens_list(before[0]));
        assert forall|i: int| 0 <= i < less.len() implies !opens_list(#[trigger] less[i]) by {
            assert(less[i] == before[i + 1]);
        }
        law_a_short_list_stays_whole(less, heading, entries, rest, at);
        assert(all[0] == before[0]);
        assert(all.drop_first() =~= less + (seq![heading] + (entries + rest)));
        lemma_truncate_first(all, None);
        assert(truncated(all) =~= all);
    } else {
        let list = entries + rest;
        assert(all =~= seq![heading] + list);
        assert(all.drop_first() =~= list);
        lemma_truncate_first(all, Some(0));
        law_lines_outside_lists_stay(rest);
        lemma_truncate_rest(rest, Some(entries.len()));
        lemma_truncate_rest(rest, Some(9));
        if entries.len() < 9 {
            lemma_first_entries(entries, rest, at, 0, entries.len());
            assert(entries.take(entries.len() as int) =~= entries);
            assert(entries.skip(entries.len() as int) + rest =~= rest);
        } else {
            lemma_first_entries(entries, rest, at, 0, 8);
            let tail = entries.skip(8) + rest;
            assert(tail[0] == entries[8]);
            assert(is_entry(entries[8], at));
            assert(tail.drop_first() =~= rest);
            if tail.len() > 1 {
                assert(tail[1] == rest[0]);
            }
            assert(!goes_on(tail, 0));
            lemma_truncate_first(tail, Some(9));
            assert(entries.take(8) + seq![entries[8]] =~= entries);
            assert(entries.take(8) + (seq![entries[8]] + rest) =~= entries + rest);
        }
        assert(truncate_from(list, 0, Some(0)) =~= list);
        assert(truncated(all) =~= all);
    }
}

/// What is left out of a long list is said two columns before the entries.
pub proof fn law_the_summary_stands_before_the_entries(indent: nat, entry: Seq<char>)
    requires
        indent >= 2,
        entry.len() > 0,
        !is_whitespace(entry[0]),
    ensures
        summary_for(Seq::new(indent, |i: int| ' ') + entry) == Seq::new(
            (indent - 2) as nat,
            |i: int| ' ',
        ) + "and $N others"@,
{
    let blank = Seq::new(indent, |i: int| ' ');
    let line = blank + entry;
    lemma_leading_is(line, Class::Whitespace, indent);
    assert(line.take(indent as int) =~= blank);
    lemma_blank_bytes(line, indent);
    lemma_blanks_within(line, (indent - 2) as nat, indent);
    assert(line.take(indent - 2) =~= Seq::new((indent - 2) as nat, |i: int| ' '));
}

proof fn lemma_blank_bytes(s: Seq<char>, n: nat)
    requires
        n <= s.len(),
        forall|i: int| 0 <= i < n ==> s[i] == ' ',
    ensures
        byte_len(s.take(n as int)) == n,
    decreases n,
{
    let blank = s.take(n as int);
    if n > 0 {
        let rest = s.drop_first();
        lemma_blank_bytes(rest, (n - 1) as nat);
        assert(blank.drop_first() =~= rest.take(n - 1));
        assert(blank[0] == ' ');
        assert(width(' ') == 1);
    }
}

proof fn lemma_blanks_within(s: Seq<char>, n: nat, blanks: nat)
    requires
        n <= blanks <= s.len(),
        forall|i: int| 0 <= i < blanks ==> s[i] == ' ',
    ensures
        chars_within(s, n as int) == n,
    decreases n,
{
    if s.len() > 0 && n > 0 {
        assert(width(' ') == 1);
        lemma_blanks_within(s.drop_first(), (n - 1) as nat, (blanks - 1) as nat);
    } else if s.len() > 0 {
        assert(width(s[0]) > 0);
    }
}

} // verus!

//! Re-aligning a diagnostic's gutter.
//!
//! rustc sizes a diagnostic's gutter to the widest line number anywhere in it,
//! so a dependency's line number also sets the width of the fixture's own
//! snippet rows, and blanking its digits leaves that width behind. Here the
//! gutter shrinks to what the surviving numbers need, so what a golden records
//! is the fixture's line numbers and nothing else's.
use crate::classify::Heading;
use crate::text::{
    after, before, copy_of, count_leading, has_prefix, is_digit, is_word, leading, lemma_leading,
    lemma_leading_is, push_chars, starts_with, texts, trim_start, trimmed_start, Class,
};
use vstd::prelude::*;

verus! {

/// How one line of a rendered diagnostic relates to the gutter.
#[derive(Debug, Clone, Copy, PartialEq, Eq, Structural)]
pub enum Row {
    /// A line that opens a diagnostic, which is `error`/`warning` anywhere and
    /// `note:`/`help:` only where one rendered diagnostic gives way to the next.
    Heading,
    /// A row the gutter places: its padding starts at `from`, and `allowed` of
    /// those spaces can go before the `|` column would reach the number.
    Gutter { from: usize, allowed: usize },
    /// A row inside the block that the gutter width does not place: a
    /// sub-diagnostic's own `note:`/`help:` heading, which sits at column 0, and
    /// a bare `...`, which rustc prints flush left at any width.
    Fixed,
    /// The second line of a `= note:` rustc split in two. It moves with the
    /// gutter but never constrains the cut: it is indented past the `= note:` it
    /// hangs off, and that note reports less.
    Continuation,
    /// The blank line rustc ends a rendered diagnostic with, which closes a
    /// block cleanly.
    Blank,
    /// Anything else, including the rest of a multi-line message. A block
    /// containing one below its span header is left alone; above the header they
    /// are the tail of the message, and are skipped.
    Other,
}

/// The number of spaces a line begins with.
pub open spec fn indentation(line: Seq<char>) -> nat {
    leading(line, Class::Space)
}

/// Whether a line opens a diagnostic rather than continuing one.
pub open spec fn opens_diagnostic(line: Seq<char>) -> bool {
    ||| starts_with(line, "error:"@)
    ||| starts_with(line, "error["@)
    ||| starts_with(line, "warning:"@)
    ||| starts_with(line, "warning["@)
}

/// Whether a line is a `= note:` or `= help:` that a wrapped line would hang off.
pub open spec fn attaches(line: Seq<char>) -> bool {
    starts_with(trim_start(line), "= "@)
}

/// Whether what follows a row's number and padding is a gutter marker.
pub open spec fn marks_gutter(rest: Seq<char>, numbered: bool) -> bool {
    ||| rest == "|"@
    ||| starts_with(rest, "| "@)
    ||| numbered && rest.len() > 0 && (rest[0] == '-' || rest[0] == '+' || rest[0] == '~') && (
    rest.len() == 1 || rest[1] == ' ')
    ||| !numbered && (starts_with(rest, "--> "@) || starts_with(rest, "::: "@) || starts_with(
        rest,
        "= "@,
    ))
}

pub open spec fn min(a: int, b: int) -> int {
    if a <= b {
        a
    } else {
        b
    }
}

/// What one line is. `wrapped` is the indent of the `= note:` above it, if the
/// line before this one could be the first half of a split note, and
/// `starts_message` is whether this line opens one of the rendered diagnostics
/// rather than continuing the one before it.
pub open spec fn row(line: Seq<char>, wrapped: Option<usize>, starts_message: bool) -> Row {
    let lead = indentation(line) as int;
    let digits = leading(line.skip(lead), Class::Digit) as int;
    let spaces = leading(line.skip(lead + digits), Class::Space) as int;
    let rest = line.skip(lead + digits + spaces);
    let pad = line.skip(3);
    let gap = leading(pad, Class::Space) as int;
    if line.len() == 0 {
        Row::Blank
    } else if lead + spaces > 0 && marks_gutter(rest, digits > 0) {
        // One space always separates the number from what follows, and the
        // digits themselves are out of reach.
        Row::Gutter { from: 0, allowed: min(lead + spaces - 1, lead) as usize }
    } else if starts_with(line, "..."@) {
        if gap > 0 {
            Row::Gutter { from: 3, allowed: (gap - 1) as usize }
        } else if pad.len() == 0 {
            Row::Fixed
        } else {
            Row::Other
        }
    } else if lead == 0 {
        if opens_diagnostic(line) {
            Row::Heading
        } else if starts_with(line, "note:"@) || starts_with(line, "help:"@) {
            if starts_message {
                Row::Heading
            } else {
                Row::Fixed
            }
        } else {
            Row::Other
        }
    } else if wrapped is Some && lead > wrapped->0 {
        Row::Continuation
    } else {
        Row::Other
    }
}

/// The anchor for the line after one that was classified as `row`.
pub open spec fn wrapped_after(line: Seq<char>, row: Row, wrapped: Option<usize>) -> Option<usize> {
    match row {
        // A wrap can itself be wrapped, so the anchor outlives one row.
        Row::Continuation => wrapped,
        Row::Gutter { .. } => if attaches(line) {
            Some(indentation(line) as usize)
        } else {
            None
        },
        _ => None,
    }
}

/// What each line is, from a given state on.
pub open spec fn rows_from(
    lines: Seq<Seq<char>>,
    wrapped: Option<usize>,
    starts_message: bool,
) -> Seq<Row>
    decreases lines.len(),
{
    if lines.len() == 0 {
        seq![]
    } else {
        let first = row(lines[0], wrapped, starts_message);
        seq![first] + rows_from(
            lines.drop_first(),
            wrapped_after(lines[0], first, wrapped),
            first is Blank,
        )
    }
}

/// What each line is.
pub open spec fn rows(lines: Seq<Seq<char>>) -> Seq<Row> {
    rows_from(lines, None, true)
}

/// The first row at or after `at` that is not `Other`.
pub open spec fn past_message(rows: Seq<Row>, at: int) -> int
    decreases rows.len() - at,
{
    if 0 <= at < rows.len() && rows[at] is Other {
        past_message(rows, at + 1)
    } else {
        at
    }
}

/// The span header of the block that opens at `index`, if one does. The message
/// between the two is indented to the level prefix rather than to the gutter, so
/// those rows are skipped.
pub open spec fn header_of(lines: Seq<Seq<char>>, rows: Seq<Row>, index: int) -> Option<int> {
    let at = past_message(rows, index + 1);
    if rows[index] is Heading && at < lines.len() && starts_with(trim_start(lines[at]), "--> "@) {
        Some(at)
    } else {
        None
    }
}

/// The first row at or after `at` that closes a block.
pub open spec fn block_end(rows: Seq<Row>, at: int) -> int
    decreases rows.len() - at,
{
    if 0 <= at < rows.len() && (rows[at] is Gutter || rows[at] is Fixed || rows[at] is Continuation)
    {
        block_end(rows, at + 1)
    } else {
        at
    }
}

/// The least that any gutter row between `at` and `end` allows.
pub open spec fn least_allowed(rows: Seq<Row>, at: int, end: int) -> int
    decreases end - at,
{
    if at >= end {
        usize::MAX as int
    } else {
        match rows[at] {
            Row::Gutter { allowed, .. } => min(allowed as int, least_allowed(rows, at + 1, end)),
            _ => least_allowed(rows, at + 1, end),
        }
    }
}

/// How far the rows of a block move. A row that is not recognized could be one
/// the gutter places, so it disqualifies its whole block.
pub open spec fn block_cut(rows: Seq<Row>, at: int, end: int) -> int {
    if end < rows.len() && rows[end] is Other {
        0
    } else {
        least_allowed(rows, at, end)
    }
}

/// `line` without the `cut` characters at `from`.
pub open spec fn without(line: Seq<char>, from: int, cut: int) -> Seq<char> {
    line.take(from) + line.skip(from + cut)
}

/// `line` moved by `cut`, if its row is one that moves.
pub open spec fn moved(line: Seq<char>, row: Row, cut: int) -> Seq<char> {
    match row {
        Row::Gutter { from, .. } => without(line, from as int, cut),
        Row::Continuation => without(line, 0, cut),
        _ => line,
    }
}

/// The lines from `from` to `to`, moved by `cut`.
pub open spec fn moved_lines(
    lines: Seq<Seq<char>>,
    rows: Seq<Row>,
    from: int,
    to: int,
    cut: int,
) -> Seq<Seq<char>> {
    Seq::new(
        (to - from) as nat,
        |k: int|
            if cut > 0 {
                moved(lines[from + k], rows[from + k], cut)
            } else {
                lines[from + k]
            },
    )
}

/// The lines from `index` on, each block re-aligned.
pub open spec fn realign_from(lines: Seq<Seq<char>>, rows: Seq<Row>, index: int) -> Seq<Seq<char>>
    decreases lines.len() - index,
{
    if !(0 <= index < lines.len()) {
        seq![]
    } else {
        match header_of(lines, rows, index) {
            Some(at) => {
                let end = block_end(rows, at);
                if !(index < end <= lines.len()) {
                    lines.skip(index)
                } else {
                    seq![lines[index]] + moved_lines(
                        lines,
                        rows,
                        index + 1,
                        end,
                        block_cut(rows, at, end),
                    ) + realign_from(lines, rows, end)
                }
            },
            None => seq![lines[index]] + realign_from(lines, rows, index + 1),
        }
    }
}

/// The lines with each diagnostic's gutter re-aligned.
pub open spec fn realign(lines: Seq<Seq<char>>) -> Seq<Seq<char>> {
    realign_from(lines, rows(lines), 0)
}

/// The number of leading spaces on a line.
pub fn indent(line: &[char]) -> (r: usize)
    ensures
        r == indentation(line@),
        r <= line@.len(),
{
    count_leading(line, Class::Space)
}

/// Whether a line opens a diagnostic rather than continuing one.
pub fn is_heading(line: &[char]) -> (r: bool)
    ensures
        r == opens_diagnostic(line@),
{
    has_prefix(line, "error:") || has_prefix(line, "error[") || has_prefix(line, "warning:")
        || has_prefix(line, "warning[")
}

/// Whether a line is the `= note:`/`= help:` a wrapped line would attach to.
pub fn is_attached_note(line: &[char]) -> (r: bool)
    ensures
        r == attaches(line@),
{
    has_prefix(trimmed_start(line), "= ")
}

/// Whether what follows a row's number and padding is a gutter marker.
pub fn is_gutter(rest: &[char], digits: usize) -> (r: bool)
    ensures
        r == marks_gutter(rest@, digits > 0),
{
    // A source line, and the bare rows rustc separates snippets with.
    if is_word(rest, "|") || has_prefix(rest, "| ") {
        return true;
    }
    if digits > 0 {
        // A suggestion rustc renders as a diff rather than an underline.
        rest.len() > 0 && (rest[0] == '-' || rest[0] == '+' || rest[0] == '~') && (rest.len() == 1
            || rest[1] == ' ')
    } else {
        // The rows that carry no number: a span header, a secondary span header,
        // and an attached `= note:` or `= help:`.
        has_prefix(rest, "--> ") || has_prefix(rest, "::: ") || has_prefix(rest, "= ")
    }
}

/// Classify one line.
pub fn row_of(line: &[char], wrapped: Option<usize>, starts_message: bool) -> (r: Row)
    ensures
        r == row(line@, wrapped, starts_message),
{
    if line.len() == 0 {
        return Row::Blank;
    }
    let lead: usize = indent(line);
    let numbered = after(line, lead);
    let digits: usize = count_leading(numbered, Class::Digit);
    assert(numbered@.skip(digits as int) =~= line@.skip(lead + digits));
    let padded = after(numbered, digits);
    let spaces: usize = count_leading(padded, Class::Space);
    assert(padded@.skip(spaces as int) =~= line@.skip(lead + digits + spaces));
    let rest = after(padded, spaces);
    if (lead > 0 || spaces > 0) && is_gutter(rest, digits) {
        // Capped at `lead` so the cut provably cannot reach the digits.
        let allowed: usize = if spaces == 0 {
            lead - 1
        } else {
            lead
        };
        return Row::Gutter { from: 0, allowed };
    }
    // rustc prints the elision marker flush left and pads after it, so its
    // padding starts past the dots rather than at column 0.
    if has_prefix(line, "...") {
        proof {
            reveal_strlit("...");
        }
        let pad = after(line, 3);
        let gap: usize = count_leading(pad, Class::Space);
        if gap > 0 {
            return Row::Gutter { from: 3, allowed: gap - 1 };
        }
        return if pad.len() == 0 {
            Row::Fixed
        } else {
            Row::Other
        };
    }
    if lead == 0 {
        if is_heading(line) {
            return Row::Heading;
        }
        // Only a `note:` or `help:` that opens a rendered diagnostic of its own
        // opens a block. Reading a sub-diagnostic as one would split a diagnostic
        // that shares a gutter into halves cut by different amounts.

        if has_prefix(line, "note:") || has_prefix(line, "help:") {
            return if starts_message {
                Row::Heading
            } else {
                Row::Fixed
            };
        }
        return Row::Other;
    }
    match wrapped {
        Some(anchor) => if lead > anchor {
            Row::Continuation
        } else {
            Row::Other
        },
        None => Row::Other,
    }
}

/// Classify every line, threading the state a `= note:` continuation needs.
pub fn classify(lines: &Vec<Vec<char>>) -> (r: Vec<Row>)
    ensures
        r@ == rows(texts(lines@)),
        r@.len() == lines@.len(),
{
    let mut out: Vec<Row> = Vec::new();
    let ghost all = texts(lines@);
    let mut wrapped: Option<usize> = None;
    // Each rendered diagnostic ends in a blank line, so a blank is what separates
    // a `note:` opening one of its own from one belonging to the error above.
    let mut starts_message: bool = true;
    let mut i: usize = 0;
    assert(all.skip(0) =~= all);
    while i < lines.len()
        invariant
            i <= lines@.len(),
            all == texts(lines@),
            out@.len() == i,
            out@ + rows_from(all.skip(i as int), wrapped, starts_message) =~= rows(all),
        decreases lines@.len() - i,
    {
        let line = lines[i].as_slice();
        assert(all.skip(i as int)[0] == line@);
        assert(all.skip(i as int).drop_first() =~= all.skip(i + 1));
        let row: Row = row_of(line, wrapped, starts_message);
        wrapped = match row {
            Row::Continuation => wrapped,
            Row::Gutter { .. } => if is_attached_note(line) {
                Some(indent(line))
            } else {
                None
            },
            _ => None,
        };
        starts_message = match row {
            Row::Blank => true,
            _ => false,
        };
        out.push(row);
        i += 1;
    }
    out
}

// ---------------------------------------------------------------------------
// Why a cut is safe.
// ---------------------------------------------------------------------------

/// A gutter row has the spaces it says it can give.
pub proof fn lemma_gutter_has_padding(line: Seq<char>, wrapped: Option<usize>, starts_message: bool)
    requires
        line.len() <= usize::MAX,
    ensures
        row(line, wrapped, starts_message) matches Row::Gutter { from, allowed } ==> {
            &&& from + allowed <= line.len()
            &&& forall|k: int| from <= k < from + allowed ==> line[k] == ' '
            &&& from == 0 ==> allowed <= indentation(line)
            &&& attaches(line) ==> from == 0
        },
{
    lemma_leading(line, Class::Space);
    let pad = line.skip(3);
    lemma_leading(pad, Class::Space);
    let lead = indentation(line) as int;
    lemma_leading(line.skip(lead), Class::Digit);
    let digits = leading(line.skip(lead), Class::Digit) as int;
    lemma_leading(line.skip(lead + digits), Class::Space);
    if let Row::Gutter { from, allowed } = row(line, wrapped, starts_message) {
        if from == 3 {
            reveal_strlit("...");
            let dots = line.subrange(0, 3);
            assert(dots[0] == '.');
            assert(line[0] == '.');
            assert forall|k: int| from <= k < from + allowed implies line[k] == ' ' by {
                assert(pad[k - 3] == line[k]);
                assert(Class::Space.has(pad[k - 3]));
            }
            lemma_leading_is(line, Class::Whitespace, 0);
            assert(trim_start(line) =~= line);
            reveal_strlit("= ");
            assert(!attaches(line)) by {
                if attaches(line) {
                    assert(line.subrange(0, 2)[0] == '=');
                }
            }
        } else {
            assert forall|k: int| from <= k < from + allowed implies line[k] == ' ' by {
                assert(Class::Space.has(line[k]));
            }
        }
    }
}

/// The state the classification is in before line `k`.
spec fn state_at(
    lines: Seq<Seq<char>>,
    wrapped: Option<usize>,
    starts_message: bool,
    k: nat,
) -> (Option<usize>, bool)
    decreases k,
{
    if k == 0 {
        (wrapped, starts_message)
    } else {
        let (w, s) = state_at(lines, wrapped, starts_message, (k - 1) as nat);
        let r = row(lines[k - 1], w, s);
        (wrapped_after(lines[k - 1], r, w), r is Blank)
    }
}

/// One step of the classification, taken before the rest instead of after.
proof fn lemma_state_shift(
    lines: Seq<Seq<char>>,
    wrapped: Option<usize>,
    starts_message: bool,
    k: nat,
)
    requires
        lines.len() > 0,
        k < lines.len(),
    ensures
        ({
            let first = row(lines[0], wrapped, starts_message);
            state_at(lines, wrapped, starts_message, k + 1) == state_at(
                lines.drop_first(),
                wrapped_after(lines[0], first, wrapped),
                first is Blank,
                k,
            )
        }),
    decreases k,
{
    reveal_with_fuel(state_at, 2);
    if k > 0 {
        lemma_state_shift(lines, wrapped, starts_message, (k - 1) as nat);
        assert(lines.drop_first()[k - 1] == lines[k as int]);
    }
}

/// Each row is its line's, in the state before it.
proof fn lemma_rows_at(
    lines: Seq<Seq<char>>,
    wrapped: Option<usize>,
    starts_message: bool,
)
    ensures
        rows_from(lines, wrapped, starts_message).len() == lines.len(),
        forall|k: int|
            0 <= k < lines.len() ==> #[trigger] rows_from(lines, wrapped, starts_message)[k] == row(
                lines[k],
                state_at(lines, wrapped, starts_message, k as nat).0,
                state_at(lines, wrapped, starts_message, k as nat).1,
            ),
    decreases lines.len(),
{
    if lines.len() > 0 {
        let first = row(lines[0], wrapped, starts_message);
        let rest = lines.drop_first();
        let w = wrapped_after(lines[0], first, wrapped);
        lemma_rows_at(rest, w, first is Blank);
        let all = rows_from(lines, wrapped, starts_message);
        assert forall|k: int| 0 <= k < lines.len() implies #[trigger] all[k] == row(
            lines[k],
            state_at(lines, wrapped, starts_message, k as nat).0,
            state_at(lines, wrapped, starts_message, k as nat).1,
        ) by {
            if k > 0 {
                lemma_state_shift(lines, wrapped, starts_message, (k - 1) as nat);
                assert(all[k] == rows_from(rest, w, first is Blank)[k - 1]);
                assert(rest[k - 1] == lines[k]);
            }
        }
    }
}

/// The note that a wrapped line hangs off: a gutter row above it with nothing
/// but other wrapped lines between the two.
spec fn is_anchor(lines: Seq<Seq<char>>, a: int, k: int, anchor: int) -> bool {
    &&& 0 <= a < k
    &&& rows(lines)[a] is Gutter
    &&& attaches(lines[a])
    &&& indentation(lines[a]) == anchor
    &&& forall|j: int| a < j < k ==> rows(lines)[j] is Continuation
}

proof fn lemma_anchor(lines: Seq<Seq<char>>, k: nat) -> (a: int)
    requires
        k <= lines.len(),
        forall|i: int| 0 <= i < lines.len() ==> (#[trigger] lines[i]).len() <= usize::MAX,
        state_at(lines, None, true, k).0 is Some,
    ensures
        is_anchor(lines, a, k as int, state_at(lines, None, true, k).0->0 as int),
    decreases k,
{
    lemma_rows_at(lines, None, true);
    let last = k - 1;
    let (w, s) = state_at(lines, None, true, last as nat);
    assert(rows(lines)[last] == row(lines[last], w, s));
    if rows(lines)[last] is Continuation {
        lemma_anchor(lines, last as nat)
    } else {
        lemma_leading(lines[last], Class::Space);
        assert(lines[last].len() <= usize::MAX);
        last
    }
}

proof fn lemma_past_message(rows: Seq<Row>, at: int)
    requires
        0 <= at <= rows.len(),
    ensures
        at <= past_message(rows, at) <= rows.len(),
        forall|k: int| at <= k < past_message(rows, at) ==> rows[k] is Other,
        past_message(rows, at) < rows.len() ==> !(rows[past_message(rows, at)] is Other),
    decreases rows.len() - at,
{
    if at < rows.len() && rows[at] is Other {
        lemma_past_message(rows, at + 1);
    }
}

proof fn lemma_block_end(rows: Seq<Row>, at: int)
    requires
        0 <= at <= rows.len(),
    ensures
        at <= block_end(rows, at) <= rows.len(),
        forall|k: int|
            at <= k < block_end(rows, at) ==> rows[k] is Gutter || rows[k] is Fixed
                || rows[k] is Continuation,
        block_end(rows, at) < rows.len() ==> rows[block_end(rows, at)] is Heading || rows[block_end(
            rows,
            at,
        )] is Blank || rows[block_end(rows, at)] is Other,
    decreases rows.len() - at,
{
    if at < rows.len() && (rows[at] is Gutter || rows[at] is Fixed || rows[at] is Continuation) {
        lemma_block_end(rows, at + 1);
    }
}

proof fn lemma_least_allowed(rows: Seq<Row>, at: int, end: int, k: int)
    requires
        0 <= at <= k < end <= rows.len(),
        rows[k] is Gutter,
    ensures
        0 <= least_allowed(rows, at, end) <= rows[k]->allowed,
    decreases end - at,
{
    lemma_least_allowed_range(rows, at, end);
    if at < k {
        lemma_least_allowed(rows, at + 1, end, k);
    }
}

proof fn lemma_least_allowed_range(rows: Seq<Row>, at: int, end: int)
    requires
        0 <= at,
        end <= rows.len(),
    ensures
        0 <= least_allowed(rows, at, end) <= usize::MAX,
    decreases end - at,
{
    if at < end {
        lemma_least_allowed_range(rows, at + 1, end);
    }
}

/// Whether a line has `cut` spaces to give where its row gives them.
pub open spec fn can_move(line: Seq<char>, row: Row, cut: int) -> bool {
    match row {
        Row::Gutter { from, .. } => from + cut <= line.len() && (forall|j: int|
            from <= j < from + cut ==> line[j] == ' '),
        Row::Continuation => cut <= line.len() && (forall|j: int| 0 <= j < cut ==> line[j] == ' '),
        _ => true,
    }
}

/// Every row of a block can move as far as the block does: a cut never reaches
/// anything but padding.
pub proof fn lemma_block_can_move(lines: Seq<Seq<char>>, index: int)
    requires
        0 <= index < lines.len(),
        forall|i: int| 0 <= i < lines.len() ==> (#[trigger] lines[i]).len() <= usize::MAX,
        header_of(lines, rows(lines), index) is Some,
    ensures
        ({
            let at = header_of(lines, rows(lines), index)->0;
            let end = block_end(rows(lines), at);
            let cut = block_cut(rows(lines), at, end);
            &&& index < at <= end <= lines.len()
            &&& 0 <= cut <= usize::MAX
            &&& forall|k: int|
                index < k < end ==> can_move(#[trigger] lines[k], rows(lines)[k], cut)
        }),
{
    let all = rows(lines);
    let at = header_of(lines, all, index)->0;
    let end = block_end(all, at);
    let cut = block_cut(all, at, end);
    lemma_rows_at(lines, None, true);
    lemma_past_message(all, index + 1);
    lemma_block_end(all, at);
    lemma_least_allowed_range(all, at, end);
    // The row before the header is the heading or the tail of its message, so
    // the header itself hangs off nothing.
    assert(!(all[at] is Continuation)) by {
        if all[at] is Continuation {
            assert(state_at(lines, None, true, at as nat).0 is Some);
            let a = lemma_anchor(lines, at as nat);
            if a < at - 1 {
                assert(all[at - 1] is Continuation);
            }
            if at - 1 > index {
                assert(all[at - 1] is Other);
            }
        }
    }
    assert forall|k: int| index < k < end implies can_move(#[trigger] lines[k], all[k], cut) by {
        let (w, s) = state_at(lines, None, true, k as nat);
        assert(all[k] == row(lines[k], w, s));
        if k >= at {
            if all[k] is Gutter {
                lemma_least_allowed(all, at, end, k);
                lemma_gutter_has_padding(lines[k], w, s);
            } else if all[k] is Continuation {
                let a = lemma_anchor(lines, k as nat);
                if a < at {
                    assert(all[at] is Continuation);
                }
                lemma_least_allowed(all, at, end, a);
                let (wa, sa) = state_at(lines, None, true, a as nat);
                assert(all[a] == row(lines[a], wa, sa));
                assert(lines[a].len() <= usize::MAX);
                lemma_gutter_has_padding(lines[a], wa, sa);
                lemma_leading(lines[k], Class::Space);
                assert forall|j: int| 0 <= j < cut implies lines[k][j] == ' ' by {
                    assert(Class::Space.has(lines[k][j]));
                }
            }
        }
    }
}

/// The index of the span header opening a block at `index`, if there is one.
pub fn span_header(lines: &Vec<Vec<char>>, rows: &Vec<Row>, index: usize) -> (r: Option<usize>)
    requires
        index < lines@.len(),
        rows@.len() == lines@.len(),
    ensures
        match r {
            Some(at) => header_of(texts(lines@), rows@, index as int) == Some(at as int) && at
                < lines@.len(),
            None => header_of(texts(lines@), rows@, index as int) is None,
        },
{
    match rows[index] {
        Row::Heading => {},
        _ => {
            return None;
        },
    }
    let count: usize = lines.len();
    assert(index < count);
    let mut at: usize = index + 1;
    loop
        invariant_except_break
            index < at <= rows@.len(),
            past_message(rows@, index + 1) == past_message(rows@, at as int),
        ensures
            index < at <= rows@.len(),
            past_message(rows@, index + 1) == at,
        decreases rows@.len() - at,
    {
        if at == rows.len() {
            break;
        }
        match rows[at] {
            Row::Other => {
                at += 1;
            },
            _ => {
                break;
            },
        }
    }
    if at < lines.len() {
        assert(texts(lines@)[at as int] == lines@[at as int]@);
        if has_prefix(trimmed_start(lines[at].as_slice()), "--> ") {
            return Some(at);
        }
    }
    None
}

/// Remove `cut` spaces starting at `from`.
pub fn shrink(line: &[char], from: usize, cut: usize) -> (r: Vec<char>)
    requires
        from + cut <= line@.len(),
        forall|j: int| from <= j < from + cut ==> line@[j] == ' ',
    ensures
        r@ == without(line@, from as int, cut as int),
{
    assert(line.len() == line@.len());
    let mut out = copy_of(before(line, from));
    push_chars(&mut out, after(line, from + cut));
    out
}

/// Re-align each diagnostic's gutter to the widest line number left in it.
///
/// The cut is the smallest any row in the block permits, so it is safe by
/// construction: every row moves by the same amount and none moves further than
/// its own padding allows. Misjudging a block's extent therefore cuts too little
/// rather than misaligning, which is why an unrecognized row disqualifies its
/// block instead of truncating it.
pub fn realign_gutters(lines: &Vec<Vec<char>>) -> (r: Vec<Vec<char>>)
    ensures
        texts(r@) == realign(texts(lines@)),
        r@.len() == lines@.len(),
{
    let ghost all = texts(lines@);
    let rows = classify(lines);
    let mut out: Vec<Vec<char>> = Vec::new();
    let mut index: usize = 0;
    assert forall|i: int| 0 <= i < all.len() implies (#[trigger] all[i]).len() <= usize::MAX by {
        assert(all[i] == lines@[i]@);
        assert(lines@[i].len() == lines@[i]@.len());
    }
    assert(texts(out@) =~= seq![]);
    while index < lines.len()
        invariant
            index <= lines@.len(),
            all == texts(lines@),
            rows@ == crate::gutter::rows(all),
            rows@.len() == lines@.len(),
            out@.len() == index,
            forall|i: int| 0 <= i < all.len() ==> (#[trigger] all[i]).len() <= usize::MAX,
            texts(out@) + realign_from(all, rows@, index as int) =~= realign(all),
        decreases lines@.len() - index,
    {
        let ghost done = texts(out@);
        out.push(copy_of(lines[index].as_slice()));
        assert(texts(out@) =~= done.push(all[index as int]));
        match span_header(lines, &rows, index) {
            None => {
                index += 1;
            },
            Some(at) => {
                proof {
                    lemma_block_can_move(all, index as int);
                    lemma_least_allowed_range(
                        rows@,
                        at as int,
                        block_end(rows@, at as int),
                    );
                }
                let mut cut: usize = usize::MAX;
                let mut end: usize = at;
                let mut recognized: bool = true;
                loop
                    invariant_except_break
                        at <= end <= rows@.len(),
                        rows@.len() == lines@.len(),
                        block_end(rows@, at as int) == block_end(rows@, end as int),
                        recognized,
                        least_allowed(rows@, at as int, block_end(rows@, at as int)) == min(
                            cut as int,
                            least_allowed(rows@, end as int, block_end(rows@, at as int)),
                        ),
                        block_end(rows@, at as int) <= rows@.len(),
                    ensures
                        end == block_end(rows@, at as int),
                        at <= end <= rows@.len(),
                        cut == least_allowed(rows@, at as int, end as int),
                        recognized == !(end < rows@.len() && rows@[end as int] is Other),
                    decreases rows@.len() - end,
                {
                    proof {
                        lemma_block_end(rows@, end as int);
                    }
                    if end == rows.len() {
                        break;
                    }
                    match rows[end] {
                        Row::Gutter { allowed, .. } => {
                            if allowed < cut {
                                cut = allowed;
                            }
                        },
                        Row::Fixed | Row::Continuation => {},
                        Row::Heading | Row::Blank => {
                            break;
                        },
                        Row::Other => {
                            recognized = false;
                            break;
                        },
                    }
                    end += 1;
                }
                if !recognized {
                    cut = 0;
                }
                assert(cut == block_cut(rows@, at as int, end as int));
                let ghost first = index as int;
                let ghost opened = texts(out@);
                let mut k: usize = index + 1;
                while k < end
                    invariant
                        first == index,
                        index < k <= end <= lines@.len(),
                        all == texts(lines@),
                        rows@.len() == lines@.len(),
                        out@.len() == k,
                        forall|j: int|
                            first < j < end ==> can_move(#[trigger] all[j], rows@[j], cut as int),
                        texts(out@) =~= opened + moved_lines(
                            all,
                            rows@,
                            first + 1,
                            k as int,
                            cut as int,
                        ),
                        opened.len() == first + 1,
                    decreases end - k,
                {
                    let ghost so_far = texts(out@);
                    assert(all[k as int] == lines@[k as int]@);
                    let line = lines[k].as_slice();
                    assert(can_move(all[k as int], rows@[k as int], cut as int));
                    let moved_line = if cut > 0 {
                        match rows[k] {
                            Row::Gutter { from, .. } => shrink(line, from, cut),
                            Row::Continuation => shrink(line, 0, cut),
                            Row::Heading | Row::Fixed | Row::Blank | Row::Other => copy_of(line),
                        }
                    } else {
                        copy_of(line)
                    };
                    out.push(moved_line);
                    assert(texts(out@) =~= so_far.push(moved_line@));
                    assert(moved_lines(all, rows@, first + 1, k + 1, cut as int) =~= moved_lines(
                        all,
                        rows@,
                        first + 1,
                        k as int,
                        cut as int,
                    ).push(moved_line@));
                    k += 1;
                }
                // Not past `end`: the row that closed the block may be the next
                // heading.
                index = end;
            },
        }
    }
    out
}

// ---------------------------------------------------------------------------
// What re-aligning promises.
// ---------------------------------------------------------------------------

/// What is left of a line when its spaces are taken out.
pub open spec fn ink(line: Seq<char>) -> Seq<char> {
    line.filter(|c: char| c != ' ')
}

/// The lines after the block at `index` has been moved by `cut`.
pub open spec fn block_moved(lines: Seq<Seq<char>>, index: int, end: int, cut: int) -> Seq<
    Seq<char>,
> {
    Seq::new(
        lines.len(),
        |k: int|
            if index < k < end && cut > 0 {
                moved(lines[k], rows(lines)[k], cut)
            } else {
                lines[k]
            },
    )
}

/// A row after its line has moved.
spec fn row_moved(row: Row, cut: int) -> Row {
    match row {
        Row::Gutter { from, allowed } => Row::Gutter { from, allowed: (allowed - cut) as usize },
        other => other,
    }
}

/// An anchor after its line has moved.
spec fn anchor_moved(wrapped: Option<usize>, cut: int) -> Option<usize> {
    match wrapped {
        Some(anchor) => Some((anchor - cut) as usize),
        None => None,
    }
}

/// Taking leading spaces off a line takes them off its indentation and leaves the
/// rest of it as it is.
proof fn lemma_unindent(line: Seq<char>, cut: int)
    requires
        0 <= cut <= indentation(line),
    ensures
        indentation(without(line, 0, cut)) == indentation(line) - cut,
        without(line, 0, cut) == line.skip(cut),
        trim_start(without(line, 0, cut)) == trim_start(line),
        forall|k: int|
            indentation(line) <= k <= line.len() ==> #[trigger] without(line, 0, cut).skip(k - cut)
                == line.skip(k),
{
    let less = without(line, 0, cut);
    let lead = indentation(line) as int;
    lemma_leading(line, Class::Space);
    assert(less =~= line.skip(cut));
    assert forall|i: int| 0 <= i < lead - cut implies Class::Space.has(less[i]) by {
        assert(Class::Space.has(line[i + cut]));
    }
    lemma_leading_is(less, Class::Space, (lead - cut) as nat);
    let blank = leading(line, Class::Whitespace) as int;
    lemma_leading(line, Class::Whitespace);
    assert(blank >= lead) by {
        if blank < lead {
            assert(Class::Space.has(line[blank]));
        }
    }
    assert forall|i: int| 0 <= i < blank - cut implies Class::Whitespace.has(less[i]) by {
        assert(Class::Whitespace.has(line[i + cut]));
    }
    lemma_leading_is(less, Class::Whitespace, (blank - cut) as nat);
    assert(trim_start(less) =~= trim_start(line));
    assert forall|k: int| lead <= k <= line.len() implies #[trigger] less.skip(k - cut) == line.skip(
        k,
    ) by {
        assert(less.skip(k - cut) =~= line.skip(k));
    }
}

/// A row's number and what surrounds it: how far it is set in, how many digits it
/// has, how many spaces follow them, and what follows those.
spec fn split_row(line: Seq<char>) -> (int, int, int, Seq<char>) {
    let lead = indentation(line) as int;
    let digits = leading(line.skip(lead), Class::Digit) as int;
    let spaces = leading(line.skip(lead + digits), Class::Space) as int;
    (lead, digits, spaces, line.skip(lead + digits + spaces))
}

/// Taking leading spaces off a row changes nothing about it but those.
proof fn lemma_split_unindented(line: Seq<char>, cut: int)
    requires
        0 <= cut <= indentation(line),
    ensures
        ({
            let (lead, digits, spaces, rest) = split_row(line);
            split_row(without(line, 0, cut)) == (lead - cut, digits, spaces, rest)
        }),
        ({
            let (lead, digits, spaces, rest) = split_row(line);
            &&& digits == 0 ==> spaces == 0
            &&& lead + digits + spaces <= line.len()
        }),
{
    let less = without(line, 0, cut);
    let lead = indentation(line) as int;
    lemma_leading(line, Class::Space);
    lemma_leading(line.skip(lead), Class::Digit);
    let digits = leading(line.skip(lead), Class::Digit) as int;
    lemma_leading(line.skip(lead + digits), Class::Space);
    let spaces = leading(line.skip(lead + digits), Class::Space) as int;
    lemma_unindent(line, cut);
    assert(less.skip(lead - cut) == line.skip(lead));
    assert(less.skip(lead + digits - cut) == line.skip(lead + digits));
    assert(less.skip(lead + digits + spaces - cut) == line.skip(lead + digits + spaces));
    if digits == 0 && spaces > 0 {
        let rest = line.skip(lead + digits);
        assert(Class::Space.has(rest[0]));
        assert(rest[0] == line[lead]);
    }
}

/// A gutter marker is not nothing.
proof fn lemma_marker_not_empty(rest: Seq<char>, numbered: bool)
    requires
        marks_gutter(rest, numbered),
    ensures
        rest.len() > 0,
{
    reveal_strlit("|");
    reveal_strlit("| ");
    reveal_strlit("--> ");
    reveal_strlit("::: ");
    reveal_strlit("= ");
}

/// What a gutter row is, whatever the state.
proof fn lemma_gutter_row(line: Seq<char>, wrapped: Option<usize>, starts_message: bool)
    ensures
        ({
            let (lead, digits, spaces, rest) = split_row(line);
            line.len() > 0 && lead + spaces > 0 && marks_gutter(rest, digits > 0) ==> row(
                line,
                wrapped,
                starts_message,
            ) == (Row::Gutter { from: 0, allowed: min(lead + spaces - 1, lead) as usize })
        }),
        ({
            let (lead, digits, spaces, rest) = split_row(line);
            row(line, wrapped, starts_message) matches Row::Gutter { from, allowed } ==> {
                ||| from == 0 && line.len() > 0 && lead + spaces > 0 && marks_gutter(
                    rest,
                    digits > 0,
                )
                ||| from == 3 && starts_with(line, "..."@) && leading(line.skip(3), Class::Space)
                    > 0 && allowed == (leading(line.skip(3), Class::Space) - 1) as usize
            }
        }),
{
}

/// A gutter row that moves is a gutter row still, with that much less to give.
proof fn lemma_gutter_moved(
    line: Seq<char>,
    wrapped: Option<usize>,
    starts_message: bool,
    cut: int,
    other_wrapped: Option<usize>,
)
    requires
        line.len() <= usize::MAX,
        row(line, wrapped, starts_message) is Gutter,
        0 <= cut <= row(line, wrapped, starts_message)->allowed,
    ensures
        ({
            let old_row = row(line, wrapped, starts_message);
            let less = moved(line, old_row, cut);
            &&& row(less, other_wrapped, starts_message) == row_moved(old_row, cut)
            &&& attaches(less) == attaches(line)
            &&& attaches(line) ==> indentation(less) == indentation(line) - cut && cut
                <= indentation(line)
            &&& old_row->from == 0 ==> trim_start(less) == trim_start(line)
        }),
{
    let old_row = row(line, wrapped, starts_message);
    let less = moved(line, old_row, cut);
    lemma_gutter_has_padding(line, wrapped, starts_message);
    lemma_gutter_row(line, wrapped, starts_message);
    let (lead, digits, spaces, rest) = split_row(line);
    if old_row->from == 0 {
        lemma_unindent(line, cut);
        lemma_split_unindented(line, cut);
        lemma_marker_not_empty(rest, digits > 0);
        assert(less == without(line, 0, cut));
        assert(less.len() > 0);
        assert(lead - cut + spaces > 0);
        lemma_gutter_row(less, other_wrapped, starts_message);
        lemma_gutter_row(line, wrapped, starts_message);
    } else {
        lemma_dots_moved(line, cut);
        lemma_dots_row(line, wrapped, starts_message);
        lemma_dots_row(less, other_wrapped, starts_message);
    }
}

/// What a row that begins with the elision marker is.
proof fn lemma_dots_row(line: Seq<char>, wrapped: Option<usize>, starts_message: bool)
    requires
        starts_with(line, "..."@),
        leading(line.skip(3), Class::Space) > 0,
    ensures
        row(line, wrapped, starts_message) == (Row::Gutter {
            from: 3,
            allowed: (leading(line.skip(3), Class::Space) - 1) as usize,
        }),
        !attaches(line),
        indentation(line) == 0,
{
    reveal_strlit("...");
    assert(line.subrange(0, 3)[0] == '.');
    assert(line[0] == '.');
    lemma_leading_is(line, Class::Space, 0);
    assert(line.skip(0) =~= line);
    lemma_leading_is(line, Class::Digit, 0);
    lemma_leading_is(line, Class::Whitespace, 0);
    reveal_strlit("= ");
    assert(!attaches(line)) by {
        if attaches(line) {
            assert(line.subrange(0, 2)[0] == '=');
        }
    }
}

/// Taking spaces out behind an elision marker leaves the marker.
proof fn lemma_dots_moved(line: Seq<char>, cut: int)
    requires
        starts_with(line, "..."@),
        0 <= cut <= leading(line.skip(3), Class::Space) - 1,
    ensures
        starts_with(without(line, 3, cut), "..."@),
        leading(without(line, 3, cut).skip(3), Class::Space) == leading(line.skip(3), Class::Space)
            - cut,
        leading(line.skip(3), Class::Space) <= line.len(),
{
    reveal_strlit("...");
    let less = without(line, 3, cut);
    let pad = line.skip(3);
    let gap = leading(pad, Class::Space) as int;
    lemma_leading(pad, Class::Space);
    assert(less.subrange(0, 3) =~= line.subrange(0, 3));
    assert(less.skip(3) =~= pad.skip(cut));
    assert forall|i: int| 0 <= i < gap - cut implies Class::Space.has(less.skip(3)[i]) by {
        assert(Class::Space.has(pad[i + cut]));
    }
    lemma_leading_is(less.skip(3), Class::Space, (gap - cut) as nat);
}

/// A wrapped line that moves with its anchor is a wrapped line still.
proof fn lemma_continuation_moved(line: Seq<char>, anchor: usize, starts_message: bool, cut: int)
    requires
        row(line, Some(anchor), starts_message) is Continuation,
        0 <= cut <= anchor,
        line.len() <= usize::MAX,
    ensures
        row(without(line, 0, cut), Some((anchor - cut) as usize), starts_message) is Continuation,
{
    let less = without(line, 0, cut);
    lemma_unindent(line, cut);
    lemma_split_unindented(line, cut);
    lemma_leading(less, Class::Space);
    assert(Class::Space.has(less[0]));
    reveal_strlit("...");
    assert(!starts_with(less, "..."@)) by {
        if starts_with(less, "..."@) {
            assert(less.subrange(0, 3)[0] == '.');
        }
    }
}

/// A row that does not hang off anything is what it is whatever is above it.
proof fn lemma_row_alone(
    line: Seq<char>,
    wrapped: Option<usize>,
    other: Option<usize>,
    starts_message: bool,
)
    requires
        ({
            let r = row(line, wrapped, starts_message);
            r is Fixed || r is Heading || r is Blank
        }),
    ensures
        row(line, other, starts_message) == row(line, wrapped, starts_message),
{
}

/// The state before a line depends on the lines before it alone.
proof fn lemma_state_prefix(a: Seq<Seq<char>>, b: Seq<Seq<char>>, k: nat)
    requires
        k <= a.len(),
        k <= b.len(),
        forall|i: int| 0 <= i < k ==> a[i] == b[i],
    ensures
        state_at(a, None, true, k) == state_at(b, None, true, k),
    decreases k,
{
    if k > 0 {
        lemma_state_prefix(a, b, (k - 1) as nat);
    }
}

/// What holds of a block and of how far it is moved, for the lemmas below.
spec fn may_move(lines: Seq<Seq<char>>, index: int, at: int, end: int, cut: int) -> bool {
    &&& 0 <= index < at <= end <= lines.len()
    &&& forall|i: int| 0 <= i < lines.len() ==> (#[trigger] lines[i]).len() <= usize::MAX
    &&& header_of(lines, rows(lines), index) == Some(at)
    &&& end == block_end(rows(lines), at)
    &&& 0 < cut <= block_cut(rows(lines), at, end)
}

/// Before the span header nothing moves.
proof fn lemma_moved_before(lines: Seq<Seq<char>>, index: int, at: int, end: int, cut: int)
    requires
        may_move(lines, index, at, end, cut),
    ensures
        forall|k: int|
            0 <= k < at ==> #[trigger] block_moved(lines, index, end, cut)[k] == lines[k],
        rows(lines).len() == lines.len(),
        state_at(lines, None, true, at as nat).0 is None,
        end < lines.len() ==> rows(lines)[end] is Heading || rows(lines)[end] is Blank,
        forall|k: int|
            at <= k < end ==> rows(lines)[k] is Gutter || rows(lines)[k] is Fixed
                || rows(lines)[k] is Continuation,
        forall|k: int| at <= k < end && rows(lines)[k] is Gutter ==> cut <= rows(lines)[k]->allowed,
{
    let all = rows(lines);
    lemma_rows_at(lines, None, true);
    lemma_past_message(all, index + 1);
    lemma_block_end(all, at);
    assert forall|k: int| at <= k < end && all[k] is Gutter implies cut <= all[k]->allowed by {
        lemma_least_allowed(all, at, end, k);
    }
    let (w, s) = state_at(lines, None, true, (at - 1) as nat);
    assert(all[at - 1] == row(lines[at - 1], w, s));
    if at - 1 > index {
        assert(all[at - 1] is Other);
    }
}

/// Within the block, each anchor has moved with its line.
proof fn lemma_moved_state(
    lines: Seq<Seq<char>>,
    index: int,
    at: int,
    end: int,
    cut: int,
    k: nat,
)
    requires
        may_move(lines, index, at, end, cut),
        at <= k <= end,
    ensures
        ({
            let less = block_moved(lines, index, end, cut);
            let (w, s) = state_at(lines, None, true, k);
            &&& w matches Some(anchor) ==> cut <= anchor
            &&& state_at(less, None, true, k) == (anchor_moved(w, cut), s)
        }),
        at < k ==> row(
            block_moved(lines, index, end, cut)[k - 1],
            state_at(block_moved(lines, index, end, cut), None, true, (k - 1) as nat).0,
            state_at(block_moved(lines, index, end, cut), None, true, (k - 1) as nat).1,
        ) == row_moved(rows(lines)[k - 1], cut),
    decreases k,
{
    let less = block_moved(lines, index, end, cut);
    lemma_moved_before(lines, index, at, end, cut);
    lemma_rows_at(lines, None, true);
    if k == at {
        lemma_state_prefix(lines, less, k);
    } else {
        let p = k - 1;
        lemma_moved_state(lines, index, at, end, cut, p as nat);
        let (w, s) = state_at(lines, None, true, p as nat);
        let r = rows(lines)[p];
        assert(r == row(lines[p], w, s));
        assert(lines[p].len() <= usize::MAX);
        assert(less[p] == moved(lines[p], r, cut));
        if r is Gutter {
            lemma_gutter_moved(lines[p], w, s, cut, anchor_moved(w, cut));
            lemma_leading(lines[p], Class::Space);
        } else if r is Continuation {
            lemma_continuation_moved(lines[p], w->0, s, cut);
        } else {
            lemma_row_alone(lines[p], w, anchor_moved(w, cut), s);
        }
    }
}

/// Past the block, the state is what it was.
proof fn lemma_moved_state_after(
    lines: Seq<Seq<char>>,
    index: int,
    at: int,
    end: int,
    cut: int,
    k: nat,
)
    requires
        may_move(lines, index, at, end, cut),
        end < k <= lines.len(),
    ensures
        state_at(block_moved(lines, index, end, cut), None, true, k) == state_at(
            lines,
            None,
            true,
            k,
        ),
        row(
            block_moved(lines, index, end, cut)[k - 1],
            state_at(block_moved(lines, index, end, cut), None, true, (k - 1) as nat).0,
            state_at(block_moved(lines, index, end, cut), None, true, (k - 1) as nat).1,
        ) == rows(lines)[k - 1],
    decreases k,
{
    let less = block_moved(lines, index, end, cut);
    let p = k - 1;
    lemma_moved_before(lines, index, at, end, cut);
    lemma_rows_at(lines, None, true);
    let (w, s) = state_at(lines, None, true, p as nat);
    assert(rows(lines)[p] == row(lines[p], w, s));
    assert(less[p] == lines[p]);
    if p == end {
        lemma_moved_state(lines, index, at, end, cut, p as nat);
        lemma_row_alone(lines[p], w, anchor_moved(w, cut), s);
    } else {
        lemma_moved_state_after(lines, index, at, end, cut, p as nat);
    }
}

/// The rows after a block has moved are the rows before, each with that much less to
/// give.
proof fn lemma_rows_moved(lines: Seq<Seq<char>>, index: int, at: int, end: int, cut: int)
    requires
        may_move(lines, index, at, end, cut),
    ensures
        ({
            let less = block_moved(lines, index, end, cut);
            &&& rows(less).len() == lines.len()
            &&& rows(lines).len() == lines.len()
            &&& forall|k: int|
                0 <= k < lines.len() ==> #[trigger] rows(less)[k] == (if at <= k < end {
                    row_moved(rows(lines)[k], cut)
                } else {
                    rows(lines)[k]
                })
        }),
{
    let less = block_moved(lines, index, end, cut);
    lemma_moved_before(lines, index, at, end, cut);
    lemma_rows_at(lines, None, true);
    lemma_rows_at(less, None, true);
    assert forall|k: int| 0 <= k < lines.len() implies #[trigger] rows(less)[k] == (if at <= k
        < end {
        row_moved(rows(lines)[k], cut)
    } else {
        rows(lines)[k]
    }) by {
        if k < at {
            lemma_state_prefix(lines, less, k as nat);
            assert(less[k] == lines[k]);
        } else if k < end {
            lemma_moved_state(lines, index, at, end, cut, (k + 1) as nat);
        } else {
            lemma_moved_state_after(lines, index, at, end, cut, (k + 1) as nat);
        }
    }
}

/// A heading is no span header.
proof fn lemma_heading_is_no_header(line: Seq<char>, wrapped: Option<usize>, starts_message: bool)
    requires
        ({
            let r = row(line, wrapped, starts_message);
            r is Heading || r is Fixed || r is Blank
        }),
    ensures
        !starts_with(trim_start(line), "--> "@),
{
    reveal_strlit("error:");
    reveal_strlit("error[");
    reveal_strlit("warning:");
    reveal_strlit("warning[");
    reveal_strlit("note:");
    reveal_strlit("help:");
    reveal_strlit("...");
    reveal_strlit("--> ");
    if line.len() > 0 {
        let first = line[0];
        assert(first == 'e' || first == 'w' || first == 'n' || first == 'h' || first == '.') by {
            if starts_with(line, "..."@) {
                assert(line.subrange(0, 3)[0] == '.');
            } else if starts_with(line, "error:"@) || starts_with(line, "error["@) {
                assert(line.subrange(0, 6)[0] == 'e');
            } else if starts_with(line, "warning:"@) || starts_with(line, "warning["@) {
                assert(line.subrange(0, 8)[0] == 'w');
            } else if starts_with(line, "note:"@) {
                assert(line.subrange(0, 5)[0] == 'n');
            } else {
                assert(line.subrange(0, 5)[0] == 'h');
            }
        }
        lemma_leading_is(line, Class::Whitespace, 0);
        assert(trim_start(line) =~= line);
        if starts_with(line, "--> "@) {
            assert(line.subrange(0, 4)[0] == '-');
        }
    } else {
        lemma_leading(line, Class::Whitespace);
    }
}

/// The span header a block opens with is a gutter row.
proof fn lemma_header_is_gutter(lines: Seq<Seq<char>>, index: int, at: int)
    requires
        0 <= index < lines.len(),
        header_of(lines, rows(lines), index) == Some(at),
    ensures
        index < at < lines.len(),
        rows(lines)[at] is Gutter,
        rows(lines).len() == lines.len(),
{
    let all = rows(lines);
    lemma_rows_at(lines, None, true);
    lemma_past_message(all, index + 1);
    let (w, s) = state_at(lines, None, true, at as nat);
    assert(all[at] == row(lines[at], w, s));
    let (w0, s0) = state_at(lines, None, true, (at - 1) as nat);
    assert(all[at - 1] == row(lines[at - 1], w0, s0));
    if at - 1 > index {
        assert(all[at - 1] is Other);
    }
    assert(w is None);
    if all[at] is Heading || all[at] is Fixed || all[at] is Blank {
        lemma_heading_is_no_header(lines[at], w, s);
    }
}

/// Whether two lists of rows are the same from `from` up to a heading at `stop`, or
/// up to their end.
spec fn agree(a: Seq<Row>, b: Seq<Row>, from: int, stop: int) -> bool {
    &&& a.len() == b.len()
    &&& 0 <= from <= stop <= a.len()
    &&& forall|k: int| from <= k < stop ==> a[k] == b[k]
    &&& stop < a.len() ==> a[stop] is Heading && b[stop] is Heading
}

proof fn lemma_past_same(a: Seq<Row>, b: Seq<Row>, at: int, stop: int)
    requires
        agree(a, b, at, stop),
    ensures
        past_message(a, at) == past_message(b, at),
        at <= past_message(a, at) <= stop,
    decreases stop - at,
{
    if at < stop && a[at] is Other {
        lemma_past_same(a, b, at + 1, stop);
    }
}

proof fn lemma_end_same(a: Seq<Row>, b: Seq<Row>, at: int, stop: int)
    requires
        agree(a, b, at, stop),
    ensures
        block_end(a, at) == block_end(b, at),
        at <= block_end(a, at) <= stop,
    decreases stop - at,
{
    if at < stop && (a[at] is Gutter || a[at] is Fixed || a[at] is Continuation) {
        lemma_end_same(a, b, at + 1, stop);
    }
}

proof fn lemma_least_same(a: Seq<Row>, b: Seq<Row>, at: int, end: int)
    requires
        forall|k: int| at <= k < end ==> a[k] == b[k],
    ensures
        least_allowed(a, at, end) == least_allowed(b, at, end),
    decreases end - at,
{
    if at < end {
        lemma_least_same(a, b, at + 1, end);
    }
}

/// Lines that are the same up to a heading, and come to the same from there on, come
/// to the same.
proof fn lemma_realign_same(
    l1: Seq<Seq<char>>,
    r1: Seq<Row>,
    l2: Seq<Seq<char>>,
    r2: Seq<Row>,
    i: int,
    stop: int,
)
    requires
        agree(r1, r2, i, stop),
        l1.len() == r1.len(),
        l2.len() == r2.len(),
        forall|k: int| i <= k < stop ==> l1[k] == l2[k],
        stop < l1.len() ==> !starts_with(trim_start(l1[stop]), "--> "@) && !starts_with(
            trim_start(l2[stop]),
            "--> "@,
        ),
        realign_from(l1, r1, stop) == realign_from(l2, r2, stop),
    ensures
        realign_from(l1, r1, i) == realign_from(l2, r2, i),
    decreases stop - i,
{
    if i < stop {
        lemma_past_same(r1, r2, i + 1, stop);
        let at = past_message(r1, i + 1);
        if header_of(l1, r1, i) is Some {
            assert(at < stop);
            assert(header_of(l2, r2, i) == Some(at));
            lemma_end_same(r1, r2, at, stop);
            let end = block_end(r1, at);
            lemma_least_same(r1, r2, at, end);
            assert(end < r1.len() ==> (r1[end] is Other) == (r2[end] is Other));
            assert(moved_lines(l1, r1, i + 1, end, block_cut(r1, at, end)) =~= moved_lines(
                l2,
                r2,
                i + 1,
                end,
                block_cut(r2, at, end),
            ));
            if i < end {
                lemma_realign_same(l1, r1, l2, r2, end, stop);
            }
        } else {
            assert(header_of(l2, r2, i) is None);
            lemma_realign_same(l1, r1, l2, r2, i + 1, stop);
        }
    }
}

/// Rows that each have that much less to give have that much less to give together.
proof fn lemma_least_moved(a: Seq<Row>, b: Seq<Row>, at: int, end: int, cut: int)
    requires
        0 <= cut,
        0 <= at,
        end <= a.len(),
        end <= b.len(),
        forall|k: int| at <= k < end ==> b[k] == row_moved(#[trigger] a[k], cut),
        forall|k: int| at <= k < end && a[k] is Gutter ==> cut <= (#[trigger] a[k])->allowed,
    ensures
        least_allowed(b, at, end) == least_allowed(a, at, end) - cut || (least_allowed(b, at, end)
            == usize::MAX && least_allowed(a, at, end) == usize::MAX && forall|k: int|
            at <= k < end ==> !(#[trigger] a[k] is Gutter)),
    decreases end - at,
{
    if at < end {
        lemma_least_moved(a, b, at + 1, end, cut);
        lemma_least_allowed_range(a, at + 1, end);
        assert(b[at] == row_moved(a[at], cut));
    }
}

/// How wide a diagnostic's gutter was makes no difference: a block whose rows have all
/// been moved part of the way already comes to the same as one whose rows have not. So
/// a line number elsewhere in a diagnostic, which only ever makes the gutter wider,
/// leaves no trace on the rows beside it.
pub proof fn law_gutter_width_makes_no_difference(lines: Seq<Seq<char>>, index: int, cut: int)
    requires
        0 <= index < lines.len(),
        forall|i: int| 0 <= i < lines.len() ==> (#[trigger] lines[i]).len() <= usize::MAX,
        header_of(lines, rows(lines), index) is Some,
        ({
            let at = header_of(lines, rows(lines), index)->0;
            0 <= cut <= block_cut(rows(lines), at, block_end(rows(lines), at))
        }),
    ensures
        ({
            let at = header_of(lines, rows(lines), index)->0;
            let end = block_end(rows(lines), at);
            realign(block_moved(lines, index, end, cut)) == realign(lines)
        }),
{
    let all = rows(lines);
    let at = header_of(lines, all, index)->0;
    let end = block_end(all, at);
    let less = block_moved(lines, index, end, cut);
    lemma_header_is_gutter(lines, index, at);
    lemma_block_end(all, at);
    if cut == 0 {
        assert(less =~= lines);
    } else {
        let total = block_cut(all, at, end);
        assert(may_move(lines, index, at, end, cut));
        lemma_moved_before(lines, index, at, end, cut);
        lemma_rows_moved(lines, index, at, end, cut);
        lemma_rows_at(lines, None, true);
        let other = rows(less);

        // Past the block.
        assert(agree(all, other, end, lines.len() as int));
        assert(realign_from(lines, all, lines.len() as int) =~= realign_from(
            less,
            other,
            lines.len() as int,
        ));
        lemma_realign_same(lines, all, less, other, end, lines.len() as int);

        // The block itself.
        assert(past_message(other, index + 1) == at) by {
            lemma_past_message(all, index + 1);
            lemma_past_message(other, index + 1);
            let p = past_message(other, index + 1);
            if p < at {
                assert(other[p] == all[p]);
            } else if p > at {
                assert(other[at] == row_moved(all[at], cut));
            }
        }
        let (w, s) = state_at(lines, None, true, at as nat);
        assert(all[at] == row(lines[at], w, s));
        assert(lines[at].len() <= usize::MAX);
        lemma_gutter_moved(lines[at], w, s, cut, w);
        assert(less[at] == moved(lines[at], all[at], cut));
        assert(all[at]->from == 0) by {
            lemma_gutter_row(lines[at], w, s);
            if all[at]->from == 3 {
                lemma_dots_row(lines[at], w, s);
                reveal_strlit("...");
                reveal_strlit("--> ");
                assert(lines[at].subrange(0, 3)[0] == '.');
                lemma_leading_is(lines[at], Class::Whitespace, 0);
                assert(trim_start(lines[at]) =~= lines[at]);
                assert(lines[at].subrange(0, 4)[0] == '-');
            }
        }
        assert(other[index] == all[index]);
        assert(header_of(less, other, index) == Some(at));
        assert(block_end(other, at) == end) by {
            lemma_block_end(other, at);
            let e = block_end(other, at);
            if e < end {
                assert(other[e] == row_moved(all[e], cut));
            } else if e > end {
                assert(other[end] == all[end]);
            }
        }
        assert forall|k: int| at <= k < end implies other[k] == row_moved(#[trigger] all[k], cut) by {
            assert(other[k] == row_moved(all[k], cut));
        }
        lemma_least_moved(all, other, at, end, cut);
        assert(all[at] is Gutter);
        assert(least_allowed(other, at, end) == least_allowed(all, at, end) - cut);
        assert(end < lines.len() ==> other[end] == all[end]);
        assert(block_cut(other, at, end) == total - cut);
        let left = moved_lines(less, other, index + 1, end, total - cut);
        let right = moved_lines(lines, all, index + 1, end, total);
        lemma_block_can_move(lines, index);
        assert forall|j: int| 0 <= j < left.len() implies left[j] == right[j] by {
            let k = index + 1 + j;
            let line = lines[k];
            assert(can_move(line, all[k], total));
            assert(less[k] == moved(line, all[k], cut));
            if k >= at {
                assert(other[k] == row_moved(all[k], cut));
            } else {
                assert(other[k] == all[k]);
            }
            match all[k] {
                Row::Gutter { from, .. } => {
                    lemma_moved_twice(line, from as int, cut, total);
                },
                Row::Continuation => {
                    lemma_moved_twice(line, 0, cut, total);
                },
                _ => {},
            }
        }
        assert(left =~= right);
        assert(less[index] == lines[index]);
        assert(realign_from(less, other, index) == realign_from(lines, all, index));

        // Before the block.
        let (wi, si) = state_at(lines, None, true, index as nat);
        assert(all[index] == row(lines[index], wi, si));
        lemma_heading_is_no_header(lines[index], wi, si);
        assert(agree(all, other, 0, index)) by {
            assert forall|k: int| 0 <= k < index implies all[k] == other[k] by {
                assert(other[k] == all[k]);
            }
        }
        lemma_realign_same(lines, all, less, other, 0, index);
    }
}

/// Moving a line part of the way and moving it the rest comes to moving it.
proof fn lemma_moved_twice(line: Seq<char>, from: int, part: int, whole: int)
    requires
        0 <= from,
        0 <= part <= whole,
        from + whole <= line.len(),
    ensures
        without(without(line, from, part), from, whole - part) == without(line, from, whole),
        part == whole ==> without(line, from, part) == without(line, from, whole),
{
    assert(without(without(line, from, part), from, whole - part) =~= without(line, from, whole));
}

/// Spaces leave no ink.
proof fn lemma_spaces_have_no_ink(s: Seq<char>)
    requires
        forall|i: int| 0 <= i < s.len() ==> s[i] == ' ',
    ensures
        ink(s).len() == 0,
    decreases s.len(),
{
    reveal(Seq::filter);
    if s.len() > 0 {
        lemma_spaces_have_no_ink(s.drop_last());
    }
}

/// Taking spaces out of a line leaves its ink.
proof fn lemma_ink_without(line: Seq<char>, from: int, cut: int)
    requires
        0 <= from,
        0 <= cut,
        from + cut <= line.len(),
        forall|j: int| from <= j < from + cut ==> line[j] == ' ',
    ensures
        ink(without(line, from, cut)) == ink(line),
{
    let keeps = |c: char| c != ' ';
    let front = line.take(from);
    let gone = line.subrange(from, from + cut);
    let back = line.skip(from + cut);
    lemma_spaces_have_no_ink(gone);
    assert(line =~= front + gone + back);
    Seq::filter_distributes_over_add(front, gone, keeps);
    Seq::filter_distributes_over_add(front + gone, back, keeps);
    Seq::filter_distributes_over_add(front, back, keeps);
    assert(ink(gone) =~= seq![]);
    assert(ink(front + gone) =~= ink(front));
}

proof fn lemma_realign_keeps(lines: Seq<Seq<char>>, index: int)
    requires
        0 <= index <= lines.len(),
        forall|i: int| 0 <= i < lines.len() ==> (#[trigger] lines[i]).len() <= usize::MAX,
    ensures
        realign_from(lines, rows(lines), index).len() == lines.len() - index,
        forall|j: int|
            0 <= j < lines.len() - index ==> ink(
                #[trigger] realign_from(lines, rows(lines), index)[j],
            ) == ink(lines[index + j]),
    decreases lines.len() - index,
{
    let all = rows(lines);
    if index < lines.len() {
        lemma_rows_at(lines, None, true);
        match header_of(lines, all, index) {
            Some(at) => {
                lemma_block_can_move(lines, index);
                let end = block_end(all, at);
                let cut = block_cut(all, at, end);
                let middle = moved_lines(lines, all, index + 1, end, cut);
                let out = realign_from(lines, all, index);
                let rest = realign_from(lines, all, end);
                lemma_realign_keeps(lines, end);
                assert(out == seq![lines[index]] + middle + rest);
                assert forall|j: int| 0 <= j < lines.len() - index implies ink(#[trigger] out[j])
                    == ink(lines[index + j]) by {
                    let k = index + j;
                    if 0 < j && k < end {
                        assert(out[j] == middle[j - 1]);
                        assert(can_move(lines[k], all[k], cut));
                        match all[k] {
                            Row::Gutter { from, .. } => {
                                lemma_ink_without(lines[k], from as int, cut);
                            },
                            Row::Continuation => {
                                lemma_ink_without(lines[k], 0, cut);
                            },
                            _ => {},
                        }
                    } else if k >= end {
                        assert(out[j] == rest[k - end]);
                    }
                }
            },
            None => {
                lemma_realign_keeps(lines, index + 1);
                let out = realign_from(lines, all, index);
                let rest = realign_from(lines, all, index + 1);
                assert forall|j: int| 0 <= j < lines.len() - index implies ink(#[trigger] out[j])
                    == ink(lines[index + j]) by {
                    if j > 0 {
                        assert(out[j] == rest[j - 1]);
                    }
                }
            },
        }
    }
}

/// Re-aligning moves text and never changes it: as many lines come out as went in, and
/// each is the line it was but for its spaces. No digit is ever eaten.
pub proof fn law_realigning_takes_only_spaces(lines: Seq<Seq<char>>)
    requires
        forall|i: int| 0 <= i < lines.len() ==> (#[trigger] lines[i]).len() <= usize::MAX,
    ensures
        realign(lines).len() == lines.len(),
        forall|i: int| 0 <= i < lines.len() ==> ink(#[trigger] realign(lines)[i]) == ink(lines[i]),
{
    lemma_realign_keeps(lines, 0);
}

/// How much text there is in a list of lines.
pub open spec fn total(lines: Seq<Seq<char>>) -> nat
    decreases lines.len(),
{
    if lines.len() == 0 {
        0
    } else {
        lines[0].len() + total(lines.drop_first())
    }
}

proof fn lemma_total_shrinks(a: Seq<Seq<char>>, b: Seq<Seq<char>>, at: int)
    requires
        a.len() == b.len(),
        forall|i: int| 0 <= i < a.len() ==> (#[trigger] b[i]).len() <= a[i].len(),
        0 <= at < a.len() ==> b[at].len() < a[at].len(),
    ensures
        total(b) <= total(a),
        0 <= at < a.len() ==> total(b) < total(a),
    decreases a.len(),
{
    if a.len() > 0 {
        let a1 = a.drop_first();
        let b1 = b.drop_first();
        assert(b[0].len() <= a[0].len());
        assert forall|i: int| 0 <= i < a1.len() implies (#[trigger] b1[i]).len() <= a1[i].len() by {
            assert(b1[i] == b[i + 1]);
        }
        if at > 0 {
            lemma_total_shrinks(a1, b1, at - 1);
        } else {
            lemma_total_shrinks(a1, b1, -1);
        }
    }
}

/// Whether the block at an index has something to give.
spec fn gives(lines: Seq<Seq<char>>, index: int) -> bool {
    match header_of(lines, rows(lines), index) {
        Some(at) => block_cut(rows(lines), at, block_end(rows(lines), at)) > 0,
        None => false,
    }
}

/// Lines in which no block has anything to give stay as they are.
proof fn lemma_realign_settled(lines: Seq<Seq<char>>, index: int)
    requires
        0 <= index <= lines.len(),
        forall|i: int| 0 <= i < lines.len() ==> (#[trigger] lines[i]).len() <= usize::MAX,
        forall|i: int| 0 <= i < lines.len() ==> !#[trigger] gives(lines, i),
    ensures
        realign_from(lines, rows(lines), index) == lines.skip(index),
    decreases lines.len() - index,
{
    let all = rows(lines);
    if index < lines.len() {
        assert(!gives(lines, index));
        match header_of(lines, all, index) {
            Some(at) => {
                lemma_block_can_move(lines, index);
                let end = block_end(all, at);
                lemma_realign_settled(lines, end);
                assert(realign_from(lines, all, index) =~= lines.skip(index));
            },
            None => {
                lemma_realign_settled(lines, index + 1);
                assert(realign_from(lines, all, index) =~= lines.skip(index));
            },
        }
    }
}

/// Re-aligning twice is re-aligning once, so blessing again changes nothing.
pub proof fn law_realigning_is_idempotent(lines: Seq<Seq<char>>)
    requires
        forall|i: int| 0 <= i < lines.len() ==> (#[trigger] lines[i]).len() <= usize::MAX,
    ensures
        realign(realign(lines)) == realign(lines),
    decreases total(lines),
{
    if exists|i: int| 0 <= i < lines.len() && #[trigger] gives(lines, i) {
        let index = choose|i: int| 0 <= i < lines.len() && #[trigger] gives(lines, i);
        let all = rows(lines);
        let at = header_of(lines, all, index)->0;
        let end = block_end(all, at);
        let cut = block_cut(all, at, end);
        let less = block_moved(lines, index, end, cut);
        law_gutter_width_makes_no_difference(lines, index, cut);
        lemma_block_can_move(lines, index);
        lemma_header_is_gutter(lines, index, at);
        lemma_block_end(all, at);
        assert(at < end);
        assert forall|i: int| 0 <= i < lines.len() implies (#[trigger] less[i]).len()
            <= lines[i].len() by {
            if index < i < end {
                assert(can_move(lines[i], all[i], cut));
            }
        }
        assert(less[at].len() < lines[at].len()) by {
            assert(can_move(lines[at], all[at], cut));
        }
        lemma_total_shrinks(lines, less, at);
        law_realigning_is_idempotent(less);
    } else {
        lemma_realign_settled(lines, 0);
        assert(lines.skip(0) =~= lines);
    }
}

// ---------------------------------------------------------------------------
// One diagnostic, under gutters of different widths.
// ---------------------------------------------------------------------------

/// So many spaces.
pub open spec fn spaces(n: int) -> Seq<char> {
    Seq::new(n as nat, |i: int| ' ')
}

/// A line of a diagnostic, without the width of the gutter it is printed under.
pub enum Slot {
    /// It starts at the margin, whatever the width.
    Flush(Seq<char>),
    /// It is set in by the width and so much more, or less.
    Placed(int, Seq<char>),
    /// Dots at the margin for lines that are left out, alone, or with the width between
    /// them and what is drawn past the gutter.
    Elided(Seq<char>),
    /// A further line of the attached note above it, set in by the width and so much more.
    Hanging(int, Seq<char>),
}

/// Dots for lines that are left out, and what is drawn past a gutter of this width.
pub open spec fn dotted(bars: Seq<char>, width: int) -> Seq<char> {
    if bars.len() == 0 {
        "..."@
    } else {
        "..."@ + (spaces(width) + bars)
    }
}

/// A line under a gutter of this width.
pub open spec fn laid(slot: Slot, width: int) -> Seq<char> {
    match slot {
        Slot::Flush(text) => text,
        Slot::Placed(offset, body) => spaces(width + offset) + body,
        Slot::Elided(bars) => dotted(bars, width),
        Slot::Hanging(offset, text) => spaces(width + offset) + text,
    }
}

/// Lines under a gutter of this width.
pub open spec fn laid_out(slots: Seq<Slot>, width: int) -> Seq<Seq<char>> {
    Seq::new(slots.len(), |i: int| laid(slots[i], width))
}

/// How many spaces there are between a row's number and its marker.
pub open spec fn gap_in(body: Seq<char>) -> int {
    leading(body.skip(leading(body, Class::Digit) as int), Class::Space) as int
}

/// Whether a text is a row that the gutter places, but for how far it is set in.
pub open spec fn marks_row(body: Seq<char>) -> bool {
    let digits = leading(body, Class::Digit) as int;
    marks_gutter(body.skip(digits + gap_in(body)), digits > 0)
}

/// Whether a text, set in so far, is a row that the gutter places.
pub open spec fn is_placed(body: Seq<char>, indent: int) -> bool {
    &&& body.len() > 0
    &&& body[0] != ' '
    &&& indent >= 0
    &&& indent + gap_in(body) > 0
    &&& marks_row(body)
}

/// Whether a line at the margin belongs to the error above it.
pub open spec fn is_attached(text: Seq<char>) -> bool {
    starts_with(text, "note:"@) || starts_with(text, "help:"@)
}

/// The attached note that a line after a slot would hang off, given the one that the slot
/// would: how far past the width the note is set in, and what it says.
pub open spec fn note_after(slot: Slot, note: Option<(int, Seq<char>)>) -> Option<
    (int, Seq<char>),
> {
    match slot {
        Slot::Placed(offset, body) => if starts_with(body, "= "@) {
            Some((offset, body))
        } else {
            None
        },
        Slot::Hanging(_, _) => note,
        _ => None,
    }
}

/// The attached note that the `i`th line would hang off, given the one the first would.
pub open spec fn note_at(slots: Seq<Slot>, note: Option<(int, Seq<char>)>, i: nat) -> Option<
    (int, Seq<char>),
>
    decreases i,
{
    if i == 0 {
        note
    } else {
        note_after(slots[i - 1], note_at(slots, note, (i - 1) as nat))
    }
}

/// Whether a slot can stand beneath the span header of a diagnostic under a gutter of
/// this width, below that note.
pub open spec fn fits(slot: Slot, width: int, note: Option<(int, Seq<char>)>) -> bool {
    match slot {
        Slot::Flush(text) => is_attached(text),
        Slot::Placed(offset, body) => is_placed(body, width + offset),
        Slot::Elided(_) => width > 0,
        Slot::Hanging(offset, text) => {
            &&& text.len() > 0
            &&& text[0] != ' '
            &&& !marks_row(text)
            &&& note matches Some((from, _)) && 0 <= width + from && from < offset
        },
    }
}

/// Whether slots can stand one beneath the other under a gutter of this width, below
/// that note.
pub open spec fn fit(slots: Seq<Slot>, width: int, note: Option<(int, Seq<char>)>) -> bool {
    forall|i: int|
        0 <= i < slots.len() ==> fits(#[trigger] slots[i], width, note_at(slots, note, i as nat))
}

/// Whether slots are what is beneath a diagnostic's message: its span header, and rows.
pub open spec fn is_body(slots: Seq<Slot>, width: int) -> bool {
    &&& slots.len() > 0
    &&& slots[0] is Placed
    &&& starts_with(slots[0]->Placed_1, "--> "@)
    &&& fit(slots, width, None)
}

/// Whether lines end where a message could begin: there are none, or the last is blank.
pub open spec fn ends_apart(lines: Seq<Seq<char>>) -> bool {
    lines.len() == 0 || lines.last().len() == 0
}

/// Whether a line begins a diagnostic after those lines.
pub open spec fn begins(before: Seq<Seq<char>>, heading: Seq<char>) -> bool {
    opens_diagnostic(heading) || (is_attached(heading) && ends_apart(before))
}

/// Whether lines are the rest of a message that begins in its heading.
pub open spec fn is_message(lines: Seq<Seq<char>>) -> bool {
    forall|i: int| 0 <= i < lines.len() ==> row(#[trigger] lines[i], None, false) is Other
}

/// Whether lines are not those of a diagnostic above them: there are none, or the first
/// is blank or opens another.
pub open spec fn stands_apart(lines: Seq<Seq<char>>) -> bool {
    lines.len() == 0 || lines[0].len() == 0 || opens_diagnostic(lines[0])
}

/// A text with a diagnostic in it, under a gutter of this width.
pub open spec fn with_body(
    before: Seq<Seq<char>>,
    heading: Seq<char>,
    message: Seq<Seq<char>>,
    slots: Seq<Slot>,
    after: Seq<Seq<char>>,
    width: int,
) -> Seq<Seq<char>> {
    before + seq![heading] + message + laid_out(slots, width) + after
}

/// Whether no line is longer than a machine can hold.
pub open spec fn is_holdable(lines: Seq<Seq<char>>) -> bool {
    forall|i: int| 0 <= i < lines.len() ==> (#[trigger] lines[i]).len() <= usize::MAX
}

proof fn lemma_placed_row(
    body: Seq<char>,
    indent: int,
    wrapped: Option<usize>,
    starts_message: bool,
)
    requires
        is_placed(body, indent),
    ensures
        row(spaces(indent) + body, wrapped, starts_message) == (Row::Gutter {
            from: 0,
            allowed: min(indent + gap_in(body) - 1, indent) as usize,
        }),
{
    let line = spaces(indent) + body;
    let digits = leading(body, Class::Digit) as int;
    lemma_leading(body, Class::Digit);
    lemma_leading(body.skip(digits), Class::Space);
    assert(line[indent] == body[0]);
    lemma_leading_is(line, Class::Space, indent as nat);
    assert(line.skip(indent) =~= body);
    assert(line.skip(indent + digits) =~= body.skip(digits));
    assert(line.skip(indent + digits + gap_in(body)) =~= body.skip(digits + gap_in(body)));
}

proof fn lemma_elided_row(
    bars: Seq<char>,
    width: int,
    wrapped: Option<usize>,
    starts_message: bool,
)
    requires
        width > 0,
    ensures
        row(dotted(bars, width), wrapped, starts_message) == (if bars.len() == 0 {
            Row::Fixed
        } else {
            Row::Gutter {
                from: 3,
                allowed: (width + leading(bars, Class::Space) - 1) as usize,
            }
        }),
{
    reveal_strlit("...");
    let line = dotted(bars, width);
    let pad = line.skip(3);
    assert(line.skip(0) =~= line);
    lemma_leading_is(line, Class::Space, 0);
    lemma_leading_is(line, Class::Digit, 0);
    assert(!marks_gutter(line, false)) by {
        reveal_strlit("|");
        reveal_strlit("| ");
        reveal_strlit("= ");
        reveal_strlit("--> ");
        reveal_strlit("::: ");
    }
    assert(line.subrange(0, 3) =~= "..."@);
    if bars.len() == 0 {
        lemma_leading_is(pad, Class::Space, 0);
    } else {
        let more = leading(bars, Class::Space);
        lemma_leading(bars, Class::Space);
        assert(pad =~= spaces(width) + bars);
        assert forall|i: int| 0 <= i < width + more implies Class::Space.has(pad[i]) by {
            if i >= width {
                assert(pad[i] == bars[i - width]);
            }
        }
        if width + more < pad.len() {
            assert(pad[width + more as int] == bars[more as int]);
        }
        lemma_leading_is(pad, Class::Space, (width + more) as nat);
    }
}

proof fn lemma_heading_row(text: Seq<char>, wrapped: Option<usize>, starts_message: bool)
    requires
        opens_diagnostic(text),
    ensures
        row(text, wrapped, starts_message) is Heading,
{
    reveal_strlit("error:");
    reveal_strlit("error[");
    reveal_strlit("warning:");
    reveal_strlit("warning[");
    reveal_strlit("...");
    assert(text[0] == 'e' || text[0] == 'w') by {
        if starts_with(text, "error:"@) {
            assert(text.subrange(0, 6)[0] == 'e');
        } else if starts_with(text, "error["@) {
            assert(text.subrange(0, 6)[0] == 'e');
        } else if starts_with(text, "warning:"@) {
            assert(text.subrange(0, 8)[0] == 'w');
        } else {
            assert(text.subrange(0, 8)[0] == 'w');
        }
    }
    lemma_flush(text);
}

proof fn lemma_attached_row(text: Seq<char>, wrapped: Option<usize>)
    requires
        is_attached(text),
    ensures
        row(text, wrapped, false) is Fixed,
{
    reveal_strlit("note:");
    reveal_strlit("help:");
    reveal_strlit("error:");
    reveal_strlit("error[");
    reveal_strlit("warning:");
    reveal_strlit("warning[");
    assert(text[0] == 'n' || text[0] == 'h') by {
        if starts_with(text, "note:"@) {
            assert(text.subrange(0, 5)[0] == 'n');
        } else {
            assert(text.subrange(0, 5)[0] == 'h');
        }
    }
    assert(!opens_diagnostic(text)) by {
        if starts_with(text, "error:"@) {
            assert(text.subrange(0, 6)[0] == 'e');
        } else if starts_with(text, "error["@) {
            assert(text.subrange(0, 6)[0] == 'e');
        } else if starts_with(text, "warning:"@) {
            assert(text.subrange(0, 8)[0] == 'w');
        } else if starts_with(text, "warning["@) {
            assert(text.subrange(0, 8)[0] == 'w');
        }
    }
    lemma_flush(text);
}

/// A `note:` or `help:` that begins a message of its own.
proof fn lemma_attached_heading(text: Seq<char>, wrapped: Option<usize>)
    requires
        is_attached(text),
    ensures
        row(text, wrapped, true) is Heading,
{
    reveal_strlit("note:");
    reveal_strlit("help:");
    assert(text[0] == 'n' || text[0] == 'h') by {
        if starts_with(text, "note:"@) {
            assert(text.subrange(0, 5)[0] == 'n');
        } else {
            assert(text.subrange(0, 5)[0] == 'h');
        }
    }
    lemma_flush(text);
}

/// A line that starts with a letter is neither set in nor numbered.
proof fn lemma_flush(text: Seq<char>)
    requires
        text.len() > 0,
        'a' <= text[0] <= 'z',
    ensures
        indentation(text) == 0,
        leading(text.skip(0), Class::Digit) == 0,
        leading(text.skip(0), Class::Space) == 0,
        !starts_with(text, "..."@),
{
    reveal_strlit("...");
    assert(text.skip(0) =~= text);
    lemma_leading_is(text, Class::Space, 0);
    lemma_leading_is(text, Class::Digit, 0);
    if starts_with(text, "..."@) {
        assert(text.subrange(0, 3)[0] == '.');
    }
}

/// What a slot's line is.
spec fn slot_row(slot: Slot, width: int) -> Row {
    match slot {
        Slot::Flush(_) => Row::Fixed,
        Slot::Placed(offset, body) => Row::Gutter {
            from: 0,
            allowed: min(width + offset + gap_in(body) - 1, width + offset) as usize,
        },
        Slot::Elided(bars) => if bars.len() == 0 {
            Row::Fixed
        } else {
            Row::Gutter { from: 3, allowed: (width + leading(bars, Class::Space) - 1) as usize }
        },
        Slot::Hanging(_, _) => Row::Continuation,
    }
}

/// Whether an anchor is the place of a note under a gutter of this width.
spec fn anchors(wrapped: Option<usize>, note: Option<(int, Seq<char>)>, width: int) -> bool {
    note matches Some((offset, _)) ==> wrapped is Some && wrapped->0 == width + offset
}

proof fn lemma_hanging_row(text: Seq<char>, indent: int, wrapped: usize, starts_message: bool)
    requires
        text.len() > 0,
        text[0] != ' ',
        !marks_row(text),
        wrapped < indent,
    ensures
        row(spaces(indent) + text, Some(wrapped), starts_message) is Continuation,
{
    reveal_strlit("...");
    let line = spaces(indent) + text;
    let digits = leading(text, Class::Digit) as int;
    lemma_leading(text, Class::Digit);
    lemma_leading(text.skip(digits), Class::Space);
    assert(line[indent] == text[0]);
    lemma_leading_is(line, Class::Space, indent as nat);
    assert(line.skip(indent) =~= text);
    assert(line.skip(indent + digits) =~= text.skip(digits));
    assert(line.skip(indent + digits + gap_in(text)) =~= text.skip(digits + gap_in(text)));
    assert(line[0] == ' ');
    if starts_with(line, "..."@) {
        assert(line.subrange(0, 3)[0] == '.');
    }
}

/// What a slot's line is in its place, and what it leaves for the next.
proof fn lemma_slot_row(
    slot: Slot,
    width: int,
    note: Option<(int, Seq<char>)>,
    wrapped: Option<usize>,
)
    requires
        fits(slot, width, note),
        anchors(wrapped, note, width),
        laid(slot, width).len() <= usize::MAX,
    ensures
        row(laid(slot, width), wrapped, false) == slot_row(slot, width),
        anchors(
            wrapped_after(laid(slot, width), slot_row(slot, width), wrapped),
            note_after(slot, note),
            width,
        ),
{
    match slot {
        Slot::Flush(text) => {
            lemma_attached_row(text, wrapped);
        },
        Slot::Placed(offset, body) => {
            let line = laid(slot, width);
            let indent = width + offset;
            lemma_placed_row(body, indent, wrapped, false);
            if starts_with(body, "= "@) {
                reveal_strlit("= ");
                assert(body.subrange(0, 2)[0] == '=');
                assert(line[indent] == body[0]);
                lemma_leading_is(line, Class::Whitespace, indent as nat);
                lemma_leading_is(line, Class::Space, indent as nat);
                assert(trim_start(line) =~= body);
                assert(line.len() >= indent);
            }
        },
        Slot::Elided(bars) => {
            lemma_elided_row(bars, width, wrapped, false);
        },
        Slot::Hanging(offset, text) => {
            lemma_hanging_row(text, width + offset, wrapped->0, false);
        },
    }
}

/// What the heading of a diagnostic is, and the state its message leaves.
proof fn lemma_message_rows(
    before: Seq<Seq<char>>,
    heading: Seq<char>,
    message: Seq<Seq<char>>,
    rest: Seq<Seq<char>>,
    k: nat,
)
    requires
        begins(before, heading),
        is_message(message),
        k <= message.len(),
    ensures
        ({
            let lines = before + seq![heading] + message + rest;
            let b = before.len() as int;
            &&& rows(lines)[b] is Heading
            &&& state_at(lines, None, true, (b + 1 + k) as nat) == (None::<usize>, false)
            &&& k < message.len() ==> rows(lines)[b + 1 + k] is Other
        }),
    decreases k,
{
    let lines = before + seq![heading] + message + rest;
    let b = before.len() as int;
    lemma_rows_at(lines, None, true);
    assert(lines[b] == heading);
    let (w, s) = state_at(lines, None, true, b as nat);
    assert(rows(lines)[b] == row(heading, w, s));
    if opens_diagnostic(heading) {
        lemma_heading_row(heading, w, s);
    } else {
        assert(s) by {
            if b > 0 {
                assert(lines[b - 1] == before.last());
            }
        }
        lemma_attached_heading(heading, w);
    }
    if k > 0 {
        lemma_message_rows(before, heading, message, rest, (k - 1) as nat);
        let at = b + k;
        assert(lines[at] == message[k - 1]);
        assert(row(message[k - 1], None, false) is Other);
    }
    if k < message.len() {
        assert(lines[b + 1 + k] == message[k as int]);
        assert(row(message[k as int], None, false) is Other);
    }
}

/// What the rows of a diagnostic are under a gutter of one width.
proof fn lemma_laid_rows(
    before: Seq<Seq<char>>,
    heading: Seq<char>,
    message: Seq<Seq<char>>,
    slots: Seq<Slot>,
    after: Seq<Seq<char>>,
    width: int,
    i: int,
)
    requires
        0 <= i < slots.len(),
        begins(before, heading),
        is_message(message),
        fit(slots, width, None),
        is_holdable(laid_out(slots, width)),
    ensures
        ({
            let lines = with_body(before, heading, message, slots, after, width);
            let at = before.len() + 1 + message.len() + i;
            &&& rows(lines)[at] == slot_row(slots[i], width)
            &&& !state_at(lines, None, true, at as nat).1
            &&& anchors(
                state_at(lines, None, true, at as nat).0,
                note_at(slots, None, i as nat),
                width,
            )
        }),
    decreases i,
{
    let rest = laid_out(slots, width) + after;
    let lines = with_body(before, heading, message, slots, after, width);
    let top = before.len() + 1 + message.len();
    let at = top + i;
    assert(lines =~= before + seq![heading] + message + rest);
    lemma_rows_at(lines, None, true);
    let (w, s) = state_at(lines, None, true, at as nat);
    let note = note_at(slots, None, i as nat);
    assert(lines[at] == laid(slots[i], width));
    assert(laid_out(slots, width)[i] == laid(slots[i], width));
    if i == 0 {
        lemma_message_rows(before, heading, message, rest, message.len());
    } else {
        lemma_laid_rows(before, heading, message, slots, after, width, i - 1);
        let last = note_at(slots, None, (i - 1) as nat);
        let (w0, s0) = state_at(lines, None, true, (at - 1) as nat);
        assert(lines[at - 1] == laid(slots[i - 1], width));
        assert(laid_out(slots, width)[i - 1] == laid(slots[i - 1], width));
        assert(fits(slots[i - 1], width, last));
        lemma_slot_row(slots[i - 1], width, last, w0);
        assert(note == note_after(slots[i - 1], last));
    }
    assert(!s);
    assert(fits(slots[i], width, note));
    lemma_slot_row(slots[i], width, note, w);
}

proof fn lemma_least_at_least(rows: Seq<Row>, at: int, end: int, least: int)
    requires
        0 <= at,
        least <= usize::MAX,
        forall|k: int| at <= k < end && rows[k] is Gutter ==> least <= (#[trigger] rows[k])->allowed,
    ensures
        least <= least_allowed(rows, at, end),
    decreases end - at,
{
    if at < end {
        lemma_least_at_least(rows, at + 1, end, least);
    }
}

/// The message of a diagnostic is gone past.
proof fn lemma_message_ends(rows: Seq<Row>, at: int, end: int)
    requires
        0 <= at <= end < rows.len(),
        forall|k: int| at <= k < end ==> rows[k] is Other,
        !(rows[end] is Other),
    ensures
        past_message(rows, at) == end,
    decreases end - at,
{
    if at < end {
        lemma_message_ends(rows, at + 1, end);
    }
}

/// The block a diagnostic makes: its span header is the line after its message, and it
/// ends where the diagnostic does.
proof fn lemma_laid_block(
    before: Seq<Seq<char>>,
    heading: Seq<char>,
    message: Seq<Seq<char>>,
    slots: Seq<Slot>,
    after: Seq<Seq<char>>,
    width: int,
)
    requires
        begins(before, heading),
        is_message(message),
        is_body(slots, width),
        stands_apart(after),
        is_holdable(laid_out(slots, width)),
    ensures
        ({
            let lines = with_body(before, heading, message, slots, after, width);
            let index = before.len() as int;
            let at = index + 1 + message.len();
            let end = at + slots.len();
            &&& header_of(lines, rows(lines), index) == Some(at)
            &&& block_end(rows(lines), at) == end
            &&& rows(lines).len() == lines.len()
            &&& end < lines.len() ==> !(rows(lines)[end] is Other)
        }),
{
    let rest = laid_out(slots, width) + after;
    let lines = with_body(before, heading, message, slots, after, width);
    let all = rows(lines);
    let index = before.len() as int;
    let at = index + 1 + message.len();
    let end = at + slots.len();
    lemma_rows_at(lines, None, true);
    assert(lines =~= before + seq![heading] + message + rest);
    lemma_message_rows(before, heading, message, rest, 0);
    assert forall|k: int| index + 1 <= k < at implies all[k] is Other by {
        lemma_message_rows(before, heading, message, rest, (k - index - 1) as nat);
    }
    lemma_laid_rows(before, heading, message, slots, after, width, 0);
    assert(fits(slots[0], width, note_at(slots, None, 0)));
    assert(all[at] is Gutter);
    let body = slots[0]->Placed_1;
    let indent = width + slots[0]->Placed_0;
    assert(lines[at] == laid(slots[0], width));
    assert(trim_start(lines[at]) =~= body) by {
        reveal_strlit("--> ");
        assert(body.subrange(0, 4)[0] == '-');
        assert(lines[at][indent] == body[0]);
        lemma_leading_is(lines[at], Class::Whitespace, indent as nat);
    }
    lemma_message_ends(all, index + 1, at);
    assert(end < lines.len() ==> all[end] is Blank || all[end] is Heading) by {
        if end < lines.len() {
            let (w, s) = state_at(lines, None, true, end as nat);
            assert(lines[end] == after[0]);
            assert(all[end] == row(lines[end], w, s));
            if after[0].len() > 0 {
                lemma_heading_row(after[0], w, s);
            }
        }
    }
    lemma_block_end(all, at);
    let stop = block_end(all, at);
    if stop < end {
        lemma_laid_rows(before, heading, message, slots, after, width, stop - at);
    }
}

/// A diagnostic under the wider gutter has the difference to give.
proof fn lemma_laid_cut(
    before: Seq<Seq<char>>,
    heading: Seq<char>,
    message: Seq<Seq<char>>,
    slots: Seq<Slot>,
    after: Seq<Seq<char>>,
    narrow: int,
    wide: int,
)
    requires
        narrow <= wide <= usize::MAX + narrow,
        begins(before, heading),
        is_message(message),
        fit(slots, narrow, None),
        fit(slots, wide, None),
        is_holdable(laid_out(slots, wide)),
    ensures
        ({
            let all = rows(with_body(before, heading, message, slots, after, wide));
            let at = before.len() as int + 1 + message.len();
            wide - narrow <= least_allowed(all, at, at + slots.len())
        }),
{
    let all = rows(with_body(before, heading, message, slots, after, wide));
    let at = before.len() as int + 1 + message.len();
    let end = at + slots.len();
    let cut = wide - narrow;
    assert forall|k: int| at <= k < end && all[k] is Gutter implies cut <= (
    #[trigger] all[k])->allowed by {
        let i = k - at;
        lemma_laid_rows(before, heading, message, slots, after, wide, i);
        assert(laid_out(slots, wide)[i] == laid(slots[i], wide));
        assert(fits(slots[i], narrow, note_at(slots, None, i as nat)));
        assert(fits(slots[i], wide, note_at(slots, None, i as nat)));
        reveal_strlit("...");
        match slots[i] {
            Slot::Placed(offset, b) => {
                lemma_leading(b.skip(leading(b, Class::Digit) as int), Class::Space);
                assert(laid(slots[i], wide).len() == wide + offset + b.len());
            },
            Slot::Elided(bars) => {
                lemma_leading(bars, Class::Space);
                assert(bars.len() > 0);
                assert(laid(slots[i], wide).len() == 3 + wide + bars.len());
            },
            _ => {},
        }
    }
    lemma_least_at_least(all, at, end, cut);
}

/// A diagnostic under the wider gutter, moved by the difference, is the one under the
/// narrower.
proof fn lemma_laid_moved(
    before: Seq<Seq<char>>,
    heading: Seq<char>,
    message: Seq<Seq<char>>,
    slots: Seq<Slot>,
    after: Seq<Seq<char>>,
    narrow: int,
    wide: int,
)
    requires
        narrow <= wide,
        begins(before, heading),
        is_message(message),
        fit(slots, narrow, None),
        fit(slots, wide, None),
        is_holdable(laid_out(slots, wide)),
    ensures
        block_moved(
            with_body(before, heading, message, slots, after, wide),
            before.len() as int,
            before.len() as int + 1 + message.len() + slots.len(),
            wide - narrow,
        ) == with_body(before, heading, message, slots, after, narrow),
{
    let lines = with_body(before, heading, message, slots, after, wide);
    let less = with_body(before, heading, message, slots, after, narrow);
    let index = before.len() as int;
    let at = index + 1 + message.len();
    let end = at + slots.len();
    let cut = wide - narrow;
    let shifted = block_moved(lines, index, end, cut);
    assert forall|k: int| 0 <= k < lines.len() implies #[trigger] shifted[k] == less[k] by {
        if index < k < at {
            let rest = laid_out(slots, wide) + after;
            assert(lines =~= before + seq![heading] + message + rest);
            lemma_message_rows(before, heading, message, rest, (k - index - 1) as nat);
        } else if at <= k < end {
            let i = k - at;
            assert(lines[k] == laid(slots[i], wide));
            assert(less[k] == laid(slots[i], narrow));
            lemma_laid_rows(before, heading, message, slots, after, wide, i);
            lemma_slot_moved(slots[i], note_at(slots, None, i as nat), narrow, wide);
        }
    }
    assert(shifted =~= less);
}

/// A line under the wider gutter, moved by the difference, is the one under the narrower.
proof fn lemma_slot_moved(slot: Slot, note: Option<(int, Seq<char>)>, narrow: int, wide: int)
    requires
        narrow <= wide,
        fits(slot, narrow, note),
        fits(slot, wide, note),
    ensures
        moved(laid(slot, wide), slot_row(slot, wide), wide - narrow) == laid(slot, narrow),
{
    let cut = wide - narrow;
    match slot {
        Slot::Flush(_) => {},
        Slot::Placed(_, _) => {
            assert(without(laid(slot, wide), 0, cut) =~= laid(slot, narrow));
        },
        Slot::Elided(bars) => {
            reveal_strlit("...");
            if bars.len() > 0 {
                assert(without(laid(slot, wide), 3, cut) =~= laid(slot, narrow));
            }
        },
        Slot::Hanging(_, _) => {
            assert(without(laid(slot, wide), 0, cut) =~= laid(slot, narrow));
        },
    }
}

proof fn lemma_widths(
    before: Seq<Seq<char>>,
    heading: Seq<char>,
    message: Seq<Seq<char>>,
    slots: Seq<Slot>,
    after: Seq<Seq<char>>,
    narrow: int,
    wide: int,
)
    requires
        narrow <= wide <= usize::MAX + narrow,
        begins(before, heading),
        is_message(message),
        is_body(slots, narrow),
        is_body(slots, wide),
        stands_apart(after),
        is_holdable(with_body(before, heading, message, slots, after, wide)),
    ensures
        realign(with_body(before, heading, message, slots, after, narrow)) == realign(
            with_body(before, heading, message, slots, after, wide),
        ),
{
    let lines = with_body(before, heading, message, slots, after, wide);
    let index = before.len() as int;
    let rows = laid_out(slots, wide);
    assert forall|i: int| 0 <= i < rows.len() implies (#[trigger] rows[i]).len()
        <= usize::MAX by {
        assert(lines[index + 1 + message.len() + i] == rows[i]);
    }
    lemma_laid_block(before, heading, message, slots, after, wide);
    lemma_laid_cut(before, heading, message, slots, after, narrow, wide);
    lemma_laid_moved(before, heading, message, slots, after, narrow, wide);
    law_gutter_width_makes_no_difference(lines, index, wide - narrow);
}

/// How wide the gutter of a diagnostic is makes no difference, wherever in a text the
/// diagnostic stands: re-aligned, it reads the same under any two widths that its rows
/// fit under.
pub proof fn law_a_diagnostic_reads_the_same_under_any_width(
    before: Seq<Seq<char>>,
    heading: Seq<char>,
    message: Seq<Seq<char>>,
    slots: Seq<Slot>,
    after: Seq<Seq<char>>,
    one: int,
    other: int,
)
    requires
        begins(before, heading),
        is_message(message),
        is_body(slots, one),
        is_body(slots, other),
        stands_apart(after),
        is_holdable(with_body(before, heading, message, slots, after, one)),
        is_holdable(with_body(before, heading, message, slots, after, other)),
    ensures
        realign(with_body(before, heading, message, slots, after, one)) == realign(
            with_body(before, heading, message, slots, after, other),
        ),
{
    let a = with_body(before, heading, message, slots, after, one);
    let b = with_body(before, heading, message, slots, after, other);
    let at = before.len() + 1int + message.len();
    assert(fits(slots[0], one, note_at(slots, None, 0)));
    assert(fits(slots[0], other, note_at(slots, None, 0)));
    assert(a[at] == laid(slots[0], one));
    assert(b[at] == laid(slots[0], other));
    assert(a[at].len() <= usize::MAX && b[at].len() <= usize::MAX);
    if one <= other {
        lemma_widths(before, heading, message, slots, after, one, other);
    } else {
        lemma_widths(before, heading, message, slots, after, other, one);
    }
}

// ---------------------------------------------------------------------------
// What the rows of a diagnostic are recognized by.
// ---------------------------------------------------------------------------

/// An error and a warning open a diagnostic, with a code or without; a `note:` and a
/// `help:` belong to the one above, unless they begin a message of their own.
pub proof fn law_what_opens_a_diagnostic(rest: Seq<char>, wrapped: Option<usize>)
    ensures
        row("error:"@ + rest, wrapped, false) is Heading,
        row("error["@ + rest, wrapped, false) is Heading,
        row("warning:"@ + rest, wrapped, false) is Heading,
        row("warning["@ + rest, wrapped, false) is Heading,
        row("note:"@ + rest, wrapped, false) is Fixed,
        row("help:"@ + rest, wrapped, false) is Fixed,
        row("note:"@ + rest, wrapped, true) is Heading,
        row("help:"@ + rest, wrapped, true) is Heading,
        row(seq![], wrapped, false) is Blank,
{
    reveal_strlit("error:");
    reveal_strlit("error[");
    reveal_strlit("warning:");
    reveal_strlit("warning[");
    reveal_strlit("note:");
    reveal_strlit("help:");
    assert(("error:"@ + rest).subrange(0, 6) =~= "error:"@);
    assert(("error["@ + rest).subrange(0, 6) =~= "error["@);
    assert(("warning:"@ + rest).subrange(0, 8) =~= "warning:"@);
    assert(("warning["@ + rest).subrange(0, 8) =~= "warning["@);
    assert(("note:"@ + rest).subrange(0, 5) =~= "note:"@);
    assert(("help:"@ + rest).subrange(0, 5) =~= "help:"@);
    lemma_heading_row("error:"@ + rest, wrapped, false);
    lemma_heading_row("error["@ + rest, wrapped, false);
    lemma_heading_row("warning:"@ + rest, wrapped, false);
    lemma_heading_row("warning["@ + rest, wrapped, false);
    lemma_attached_row("note:"@ + rest, wrapped);
    lemma_attached_row("help:"@ + rest, wrapped);
    lemma_attached_heading("note:"@ + rest, wrapped);
    lemma_attached_heading("help:"@ + rest, wrapped);
}

/// What marks the gutter: the bare bar and the bar before a text, with a number or without;
/// with a number, a change of a suggestion; without one, an arrow, a further arrow, and an
/// attached note. Nothing else does.
pub proof fn law_what_marks_the_gutter(rest: Seq<char>, text: Seq<char>, numbered: bool)
    ensures
        marks_gutter("|"@, numbered),
        marks_gutter("| "@ + rest, numbered),
        marks_gutter("- "@ + rest, numbered) == numbered,
        marks_gutter("+ "@ + rest, numbered) == numbered,
        marks_gutter("~ "@ + rest, numbered) == numbered,
        marks_gutter("--> "@ + rest, numbered) == !numbered,
        marks_gutter("::: "@ + rest, numbered) == !numbered,
        marks_gutter("= "@ + rest, numbered) == !numbered,
        text.len() > 0 && text[0] != '|' && text[0] != '-' && text[0] != '+' && text[0] != '~'
            && text[0] != ':' && text[0] != '=' ==> !marks_gutter(text, numbered),
{
    reveal_strlit("|");
    reveal_strlit("| ");
    reveal_strlit("- ");
    reveal_strlit("+ ");
    reveal_strlit("~ ");
    reveal_strlit("= ");
    reveal_strlit("--> ");
    reveal_strlit("::: ");
    assert(("| "@ + rest).subrange(0, 2) =~= "| "@);
    assert(("= "@ + rest).subrange(0, 2) =~= "= "@);
    assert(("--> "@ + rest).subrange(0, 4) =~= "--> "@);
    assert(("::: "@ + rest).subrange(0, 4) =~= "::: "@);
    lemma_first_of_marker("- "@ + rest);
    lemma_first_of_marker("+ "@ + rest);
    lemma_first_of_marker("~ "@ + rest);
    lemma_first_of_marker("--> "@ + rest);
    lemma_first_of_marker("::: "@ + rest);
    lemma_first_of_marker("= "@ + rest);
    lemma_first_of_marker(text);
    assert(("--> "@ + rest)[1] == '-');
    if starts_with("- "@ + rest, "--> "@) {
        assert(("- "@ + rest).subrange(0, 4)[1] == '-');
    }
}

proof fn lemma_first_of_marker(text: Seq<char>)
    ensures
        text == "|"@ || starts_with(text, "| "@) ==> text[0] == '|',
        starts_with(text, "= "@) ==> text[0] == '=',
        starts_with(text, "--> "@) ==> text[0] == '-',
        starts_with(text, "::: "@) ==> text[0] == ':',
{
    reveal_strlit("|");
    reveal_strlit("| ");
    reveal_strlit("= ");
    reveal_strlit("--> ");
    reveal_strlit("::: ");
    if starts_with(text, "| "@) {
        assert(text.subrange(0, 2)[0] == '|');
    }
    if starts_with(text, "= "@) {
        assert(text.subrange(0, 2)[0] == '=');
    }
    if starts_with(text, "--> "@) {
        assert(text.subrange(0, 4)[0] == '-');
    }
    if starts_with(text, "::: "@) {
        assert(text.subrange(0, 4)[0] == ':');
    }
}

/// How far a row can move: a row with a bar leaves one space before it, one that is set
/// against its number leaves the number, and dots leave one space behind them.
pub proof fn law_how_far_a_row_can_move(
    lead: nat,
    number: Seq<char>,
    gap: nat,
    rest: Seq<char>,
    wrapped: Option<usize>,
    starts_message: bool,
)
    requires
        number.len() > 0,
        forall|i: int| 0 <= i < number.len() ==> is_digit(number[i]),
        gap > 0,
        lead + number.len() + gap + rest.len() + 10 <= usize::MAX,
    ensures
        row(spaces(lead as int) + (number + spaces(gap as int) + ("| "@ + rest)), wrapped, starts_message)
            == (Row::Gutter { from: 0, allowed: lead as usize }),
        lead > 0 ==> row(spaces(lead as int) + ("| "@ + rest), wrapped, starts_message) == (
        Row::Gutter { from: 0, allowed: (lead - 1) as usize }),
        lead > 0 ==> row(spaces(lead as int) + ("--> "@ + rest), wrapped, starts_message) == (
        Row::Gutter { from: 0, allowed: (lead - 1) as usize }),
        lead > 0 ==> row(spaces(lead as int) + ("= "@ + rest), wrapped, starts_message) == (
        Row::Gutter { from: 0, allowed: (lead - 1) as usize }),
{
    reveal_strlit("| ");
    reveal_strlit("--> ");
    reveal_strlit("= ");
    law_what_marks_the_gutter(rest, rest, true);
    law_what_marks_the_gutter(rest, rest, false);
    let body = number + spaces(gap as int) + ("| "@ + rest);
    let mark = "| "@ + rest;
    assert forall|i: int| 0 <= i < number.len() implies Class::Digit.has(body[i]) by {
        assert(body[i] == number[i]);
    }
    assert(body[number.len() as int] == ' ');
    lemma_leading_is(body, Class::Digit, number.len());
    let tail = body.skip(number.len() as int);
    assert(tail =~= spaces(gap as int) + mark);
    assert(tail[gap as int] == '|');
    lemma_leading_is(tail, Class::Space, gap);
    assert(body.skip(number.len() + gap as int) =~= mark);
    assert(is_digit(number[0]));
    assert(body[0] == number[0]);
    lemma_placed_row(body, lead as int, wrapped, starts_message);
    if lead > 0 {
        lemma_bare_mark(mark);
        lemma_bare_mark("--> "@ + rest);
        lemma_bare_mark("= "@ + rest);
        lemma_placed_row(mark, lead as int, wrapped, starts_message);
        lemma_placed_row("--> "@ + rest, lead as int, wrapped, starts_message);
        lemma_placed_row("= "@ + rest, lead as int, wrapped, starts_message);
    }
}

proof fn lemma_bare_mark(text: Seq<char>)
    requires
        text.len() > 0,
        text[0] == '|' || text[0] == '-' || text[0] == '=',
    ensures
        leading(text, Class::Digit) == 0,
        gap_in(text) == 0,
        text.skip(0) == text,
{
    lemma_leading_is(text, Class::Digit, 0);
    assert(text.skip(0) =~= text);
    lemma_leading_is(text, Class::Space, 0);
}

/// A diagnostic whose gutter is no wider than a number in it needs stays as it is: so the
/// width that re-aligning comes to is that of the widest number that is left.
pub proof fn law_a_gutter_that_a_number_fills_stays(
    heading: Seq<char>,
    message: Seq<Seq<char>>,
    slots: Seq<Slot>,
    width: int,
    i: int,
)
    requires
        opens_diagnostic(heading) || is_attached(heading),
        is_message(message),
        is_body(slots, width),
        is_holdable(laid_out(slots, width)),
        0 <= i < slots.len(),
        slots[i] matches Slot::Placed(offset, body) && (width + offset == 0 || width + offset
            + gap_in(body) == 1),
    ensures
        realign(with_body(seq![], heading, message, slots, seq![], width)) == with_body(
            seq![],
            heading,
            message,
            slots,
            seq![],
            width,
        ),
{
    let lines = with_body(seq![], heading, message, slots, seq![], width);
    let all = rows(lines);
    let at = 1int + message.len();
    lemma_laid_block(seq![], heading, message, slots, seq![], width);
    lemma_laid_rows(seq![], heading, message, slots, seq![], width, i);
    assert(fits(slots[i], width, note_at(slots, None, i as nat)));
    let end = at + slots.len();
    assert(lines.len() == end);
    let b = slots[i]->Placed_1;
    lemma_leading(b.skip(leading(b, Class::Digit) as int), Class::Space);
    assert(all[at + i] == (Row::Gutter { from: 0, allowed: 0 }));
    lemma_least_allowed(all, at, end, at + i);
    let cut = block_cut(all, at, end);
    assert(cut <= 0);
    let middle = moved_lines(lines, all, 1, end, cut);
    assert(middle =~= lines.subrange(1, end));
    assert(realign_from(lines, all, end) =~= seq![]);
    assert(seq![lines[0]] + middle + realign_from(lines, all, end) =~= lines);
}

/// Lines of which none opens a diagnostic or begins a message of its own stay as they are.
pub proof fn law_lines_outside_diagnostics_stay(lines: Seq<Seq<char>>)
    requires
        forall|i: int|
            0 <= i < lines.len() ==> !opens_diagnostic(#[trigger] lines[i]) && !is_attached(
                lines[i],
            ),
    ensures
        realign(lines) == lines,
{
    lemma_unheaded_lines(lines, 0);
    assert(lines.skip(0) =~= lines);
}

proof fn lemma_unheaded_lines(lines: Seq<Seq<char>>, index: int)
    requires
        0 <= index <= lines.len(),
        forall|i: int|
            0 <= i < lines.len() ==> !opens_diagnostic(#[trigger] lines[i]) && !is_attached(
                lines[i],
            ),
    ensures
        realign_from(lines, rows(lines), index) == lines.skip(index),
    decreases lines.len() - index,
{
    if index < lines.len() {
        lemma_rows_at(lines, None, true);
        lemma_unheaded_lines(lines, index + 1);
        assert(!opens_diagnostic(lines[index]) && !is_attached(lines[index]));
        assert(rows(lines)[index] == row(
            lines[index],
            state_at(lines, None, true, index as nat).0,
            state_at(lines, None, true, index as nat).1,
        ));
        assert(!(rows(lines)[index] is Heading));
        assert(seq![lines[index]] + lines.skip(index + 1) =~= lines.skip(index));
    } else {
        assert(lines.skip(index) =~= seq![]);
    }
}

/// What a row is that marks no gutter: the rest of a note where it is set in further than
/// the note, and otherwise something that is not known.
pub proof fn law_what_is_set_in_further_belongs_to_the_note(
    indent: nat,
    body: Seq<char>,
    note: usize,
    starts_message: bool,
)
    requires
        indent > 0,
        body.len() > 0,
        body[0] != ' ',
        !marks_row(body),
    ensures
        row(spaces(indent as int) + body, Some(note), starts_message) is Continuation <==> indent
            > note,
        indent <= note ==> row(spaces(indent as int) + body, Some(note), starts_message) is Other,
        row(spaces(indent as int) + body, None, starts_message) is Other,
{
    let line = spaces(indent as int) + body;
    reveal_strlit("...");
    if starts_with(line, "..."@) {
        assert(line.subrange(0, 3)[0] == '.');
        assert(line[0] == ' ');
    }
    lemma_leading_is(line, Class::Space, indent);
    assert(line.skip(indent as int) =~= body);
    let digits = leading(body, Class::Digit) as int;
    lemma_leading(body, Class::Digit);
    assert(line.skip(indent + digits) =~= body.skip(digits));
    lemma_leading(body.skip(digits), Class::Space);
    assert(line.skip(indent + digits + gap_in(body)) =~= body.skip(digits + gap_in(body)));
}

/// A note or a help at the margin opens a diagnostic of its own behind a blank line, and
/// belongs to the one above elsewhere.
pub proof fn law_a_note_opens_a_diagnostic_behind_a_blank_line(
    text: Seq<char>,
    wrapped: Option<usize>,
)
    requires
        starts_with(text, "note:"@) || starts_with(text, "help:"@),
    ensures
        row(text, wrapped, true) is Heading,
        row(text, wrapped, false) is Fixed,
{
    reveal_strlit("note:");
    reveal_strlit("help:");
    reveal_strlit("...");
    assert(text[0] == 'n' || text[0] == 'h') by {
        if starts_with(text, "note:"@) {
            assert(text.subrange(0, 5)[0] == 'n');
        } else {
            assert(text.subrange(0, 5)[0] == 'h');
        }
    }
    if starts_with(text, "..."@) {
        assert(text.subrange(0, 3)[0] == '.');
    }
    lemma_attached_row(text, wrapped);
}

/// A diagnostic whose gutter runs into something that is not known stays as it is.
pub proof fn law_a_gutter_that_runs_into_the_unknown_stays(
    lines: Seq<Seq<char>>,
    index: int,
    at: int,
)
    requires
        0 <= index < lines.len(),
        header_of(lines, rows(lines), index) == Some(at),
        block_end(rows(lines), at) < lines.len(),
        rows(lines)[block_end(rows(lines), at)] is Other,
    ensures
        realign_from(lines, rows(lines), index) == lines.subrange(
            index,
            block_end(rows(lines), at),
        ) + realign_from(lines, rows(lines), block_end(rows(lines), at)),
{
    let all = rows(lines);
    let end = block_end(all, at);
    lemma_header_is_gutter(lines, index, at);
    lemma_block_end(all, at);
    assert(block_cut(all, at, end) == 0);
    assert(seq![lines[index]] + moved_lines(lines, all, index + 1, end, 0) =~= lines.subrange(
        index,
        end,
    ));
}

/// Every diagnostic of a text is aligned, each by itself: what comes behind one is aligned
/// as if it stood first.
pub proof fn law_every_diagnostic_is_aligned(lines: Seq<Seq<char>>, index: int, at: int)
    requires
        0 <= index < lines.len(),
        header_of(lines, rows(lines), index) == Some(at),
    ensures
        index < block_end(rows(lines), at) <= lines.len(),
        realign_from(lines, rows(lines), index).len() == lines.len() - index,
        realign_from(lines, rows(lines), index).skip(block_end(rows(lines), at) - index)
            == realign_from(lines, rows(lines), block_end(rows(lines), at)),
{
    let all = rows(lines);
    let end = block_end(all, at);
    lemma_header_is_gutter(lines, index, at);
    lemma_block_end(all, at);
    lemma_realigned_len(lines, index);
    let block = seq![lines[index]] + moved_lines(
        lines,
        all,
        index + 1,
        end,
        block_cut(all, at, end),
    );
    assert(block.len() == end - index);
    assert(realign_from(lines, all, index) == block + realign_from(lines, all, end));
    assert((block + realign_from(lines, all, end)).skip(end - index) =~= realign_from(
        lines,
        all,
        end,
    ));
}

proof fn lemma_realigned_len(lines: Seq<Seq<char>>, index: int)
    requires
        0 <= index <= lines.len(),
    ensures
        realign_from(lines, rows(lines), index).len() == lines.len() - index,
    decreases lines.len() - index,
{
    let all = rows(lines);
    if index < lines.len() {
        match header_of(lines, all, index) {
            Some(at) => {
                lemma_header_is_gutter(lines, index, at);
                lemma_block_end(all, at);
                lemma_realigned_len(lines, block_end(all, at));
            },
            None => {
                lemma_realigned_len(lines, index + 1);
            },
        }
    }
}

} // verus!

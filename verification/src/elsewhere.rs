//! Where a dependency puts its code makes no difference to a golden.
//!
//! A diagnostic that reaches into a dependency says where in it: in the position of a
//! span header, in the line numbers of the snippet beneath, and, because rustc sizes the
//! gutter to the widest number anywhere in the diagnostic, in how far every row is set
//! in. Here a rendering is put together from its rows, and what normalizing makes of it
//! is shown not to depend on any of the three.
use crate::compare::is_row;
use crate::gutter::{
    begins, dotted, ends_apart, fit, fits, gap_in, is_attached, is_body, is_holdable, is_message,
    is_placed, laid, laid_out, law_a_diagnostic_reads_the_same_under_any_width, marks_gutter,
    marks_row, note_after, note_at, opens_diagnostic, realign, row, spaces, stands_apart,
    with_body, Slot,
};
use crate::lists::{
    chars_within, column, count_hidden, is_kept, kept_of, lemma_blank_kept, lemma_summary_set_in,
    lemma_truncate_front, lemma_truncate_one, lemma_truncate_rest, next_listed, opens_list,
    summary_for, truncate_from, truncated, ENTRY_COLUMN, HEADING, OTHER_HEADING, SUMMARIZED_AT,
    SUMMARY,
};
use crate::normalize::{
    all_named, dependencies_replaced, in_snippet, is_drawn, is_into, is_mark,
    law_foreign_positions_make_no_difference, law_trailing_space_makes_no_difference,
    lemma_drawn_stays, line_normalized, lines_normalized, normalized, number_blanked,
    paths_rewritten, target_of, Rules,
};
use crate::rewrite::{
    dir_replaced, lemma_dir_framed, lemma_registry_framed, lemma_toolchain_framed,
    registry_replaced, sysroot_replaced, CARGO_HOME, CRATE, DIR, SCRATCH,
};
use crate::text::{
    byte_len, is_apart, is_digit, is_frame, is_unframed, is_unnumbered, leading, lemma_leading,
    lemma_leading_is, lemma_replace_framed, lemma_trailing, lemma_trailing_is, lines, replace,
    starts_with, trailing, trim_end, trim_start, width, Class,
};
use vstd::prelude::*;

verus! {

/// A line of a rendered diagnostic beneath its message, without the width of the gutter.
pub enum Piece {
    /// The `note:` or `help:` of a sub-diagnostic, at the margin.
    Flush(Seq<char>),
    /// A span header, from its arrow on, and the line and column it points at.
    Span { header: Seq<char>, line: Seq<char>, column: Seq<char> },
    /// A row without a number: the bare gutter, an underline, an attached `= note:`.
    Bare(Seq<char>),
    /// A row with a line number, and what follows the space behind it.
    Numbered { number: Seq<char>, rest: Seq<char> },
    /// The dots for lines that are left out, and the bars of the spans that run past them.
    Elided(Seq<char>),
    /// A further line of the attached note above it, or an entry of the list beneath it,
    /// and how far past the gutter it is set in.
    Hanging { offset: int, text: Seq<char> },
}

/// A rendered diagnostic, without the width of the gutter.
pub struct Diagnostic {
    /// Its first line.
    pub heading: Seq<char>,
    /// The further lines of its message.
    pub message: Seq<Seq<char>>,
    /// What is beneath the message.
    pub pieces: Seq<Piece>,
}

/// A line and a column, as they stand behind a path.
pub open spec fn position_text(line: Seq<char>, column: Seq<char>) -> Seq<char> {
    seq![':'] + line + seq![':'] + column
}

/// A line of a diagnostic under a gutter of this width. A number is set against the
/// right of the gutter.
pub open spec fn shown(piece: Piece, width: int) -> Seq<char> {
    match piece {
        Piece::Flush(text) => text,
        Piece::Span { header, line, column } => spaces(width) + header + position_text(
            line,
            column,
        ),
        Piece::Bare(rest) => spaces(width + 1) + rest,
        Piece::Numbered { number, rest } => spaces(width - number.len()) + (number + seq![' ']
            + rest),
        Piece::Elided(bars) => dotted(bars, width),
        Piece::Hanging { offset, text } => spaces(width + offset) + text,
    }
}

/// Those lines of a diagnostic under a gutter of this width.
pub open spec fn shown_all(pieces: Seq<Piece>, width: int) -> Seq<Seq<char>> {
    Seq::new(pieces.len(), |i: int| shown(pieces[i], width))
}

/// The lines of a diagnostic under a gutter of this width.
pub open spec fn printed(d: Diagnostic, width: int) -> Seq<Seq<char>> {
    seq![d.heading] + d.message + shown_all(d.pieces, width)
}

/// A text once its paths are rewritten and its counts hidden.
pub open spec fn read(rules: Rules, fixture: Seq<char>, text: Seq<char>) -> Seq<char> {
    count_hidden(paths_rewritten(rules, text, fixture))
}

/// Whether the places a run knows are such as a path on a Unix system is in practice:
/// none begins with a space or a digit, none holds a colon with a digit behind it, which is
/// what a position begins with, and none is made of dots, spaces and bars alone. What is
/// replaced wherever it stands does not end in a colon either.
pub open spec fn is_settled(rules: Rules) -> bool {
    &&& all_named(rules)
    &&& rules.scratch_absolute.len() > 0 ==> is_unframed(rules.scratch_absolute)
    &&& rules.scratch_root.len() > 0 ==> is_unframed(rules.scratch_root)
    &&& is_apart(rules.scratch_relative)
    &&& is_apart(rules.bin)
    &&& rules.manifest_dir.len() > 0 ==> is_unframed(rules.manifest_dir)
    &&& (rules.cargo_home matches Some(home) ==> (home.len() > 0 ==> is_unframed(home)))
    &&& forall|i: int|
        0 <= i < rules.dependencies.len() ==> (#[trigger] rules.dependencies[i]).0.len() > 0
            ==> is_unframed(rules.dependencies[i].0)
}

/// Whether a text begins with the arrow of a span header.
pub open spec fn has_arrow(text: Seq<char>) -> bool {
    starts_with(text, "--> "@) || starts_with(text, "::: "@)
}

/// Whether a span header points at another file than the fixture.
pub open spec fn points_abroad(rules: Rules, fixture: Seq<char>, header: Seq<char>) -> bool {
    !is_into(read(rules, fixture, header).skip(4), fixture)
}

/// Whether the rows after a line belong to another file's snippet, given whether the
/// line itself could.
pub open spec fn leads_abroad(
    rules: Rules,
    fixture: Seq<char>,
    piece: Piece,
    foreign: bool,
) -> bool {
    match piece {
        Piece::Flush(_) => false,
        Piece::Span { header, .. } => points_abroad(rules, fixture, header),
        Piece::Bare(rest) => foreign && rest[0] == '|',
        Piece::Numbered { .. } => foreign,
        Piece::Elided(_) => foreign,
        Piece::Hanging { .. } => false,
    }
}

/// Whether the `i`th line of a diagnostic could belong to another file's snippet.
pub open spec fn abroad_at(rules: Rules, fixture: Seq<char>, pieces: Seq<Piece>, i: nat) -> bool
    decreases i,
{
    i > 0 && leads_abroad(
        rules,
        fixture,
        pieces[i - 1],
        abroad_at(rules, fixture, pieces, (i - 1) as nat),
    )
}

/// Whether a text is digits.
pub open spec fn is_number(text: Seq<char>) -> bool {
    text.len() > 0 && forall|i: int| 0 <= i < text.len() ==> is_digit(text[i])
}

/// Whether a text is a row that begins with its line number.
pub open spec fn is_numbered(text: Seq<char>) -> bool {
    let digits = leading(text, Class::Digit) as int;
    &&& digits > 0
    &&& gap_in(text) > 0
    &&& marks_gutter(text.skip(digits + gap_in(text)), true)
}

/// Whether a piece can stand beneath a diagnostic's message, below that note: as it stands
/// and as it is read, it is a line of its kind, and ends without white space. What hangs
/// off a list is set in as far as rustc sets an entry in.
pub open spec fn can_stand(
    rules: Rules,
    fixture: Seq<char>,
    piece: Piece,
    foreign: bool,
    note: Option<(int, Seq<char>)>,
) -> bool {
    match piece {
        Piece::Flush(text) => {
            &&& trim_end(text) == text
            &&& is_attached(text)
            &&& is_attached(read(rules, fixture, text))
        },
        Piece::Span { header, line, column } => {
            &&& has_arrow(header)
            &&& has_arrow(read(rules, fixture, header))
            &&& is_number(line)
            &&& is_number(column)
        },
        Piece::Bare(rest) => {
            &&& trim_end(rest) == rest
            &&& is_row(rest)
            &&& is_row(read(rules, fixture, rest))
        },
        Piece::Numbered { number, rest } => {
            &&& is_number(number)
            &&& rest.len() > 0
            &&& trim_end(rest) == rest
            &&& if foreign {
                rest[0] == '|' && is_row(read(rules, fixture, rest))
            } else {
                is_numbered(read(rules, fixture, number + seq![' '] + rest))
            }
        },
        Piece::Elided(bars) => trim_end(bars) == bars && is_drawn(bars),
        Piece::Hanging { offset, text } => {
            let out = read(rules, fixture, text);
            &&& !foreign
            &&& text.len() > 0
            &&& trim_end(text) == text
            &&& out.len() > 0
            &&& !Class::Whitespace.has(out[0])
            &&& !marks_row(out)
            &&& note matches Some((from, body)) && 0 <= from < offset && (opens_list(body)
                ==> offset >= ENTRY_OFFSET && from + 2 < offset)
        },
    }
}

/// How far past the gutter rustc sets an implementor in.
pub const ENTRY_OFFSET: usize = 11;

/// Whether a line begins a diagnostic, or belongs to the one above it.
pub open spec fn heads(text: Seq<char>) -> bool {
    opens_diagnostic(text) || is_attached(text)
}

/// Whether a diagnostic is one that rustc could print under a gutter of this width: a
/// heading, the rest of its message, its span header and the rows beneath, every number
/// fitting in the gutter, and no wider than a line number can make it.
pub open spec fn is_rendering(
    rules: Rules,
    fixture: Seq<char>,
    d: Diagnostic,
    width: int,
) -> bool {
    &&& 1 <= width <= 10
    &&& trim_end(d.heading) == d.heading
    &&& heads(d.heading)
    &&& heads(read(rules, fixture, d.heading))
    &&& is_message(lines_normalized(rules, fixture, d.message, false))
    &&& has_span_first(rules, fixture, d.pieces)
    &&& all_can_stand(rules, fixture, d.pieces)
    &&& numbers_fit(d.pieces, width)
}

/// Whether every line number is no wider than the gutter.
pub open spec fn numbers_fit(pieces: Seq<Piece>, width: int) -> bool {
    forall|i: int|
        0 <= i < pieces.len() ==> (#[trigger] pieces[i] matches Piece::Numbered { number, .. }
            ==> number.len() <= width)
}

/// Whether the first of these is a diagnostic's own span header.
pub open spec fn has_span_first(rules: Rules, fixture: Seq<char>, pieces: Seq<Piece>) -> bool {
    pieces.len() > 0 && (pieces[0] matches Piece::Span { header, .. } && starts_with(
        read(rules, fixture, header),
        "--> "@,
    ))
}

/// Whether each piece can stand where it does.
pub open spec fn all_can_stand(rules: Rules, fixture: Seq<char>, pieces: Seq<Piece>) -> bool {
    forall|i: int|
        0 <= i < pieces.len() ==> can_stand(
            rules,
            fixture,
            #[trigger] pieces[i],
            abroad_at(rules, fixture, pieces, i as nat),
            note_at(slots_of(rules, fixture, pieces), None, i as nat),
        )
}

/// Whether two pieces are the same but for where in another file they point, or for the
/// number of a row in another file's snippet.
pub open spec fn same_but_abroad(
    rules: Rules,
    fixture: Seq<char>,
    one: Piece,
    other: Piece,
    foreign: bool,
) -> bool {
    match (one, other) {
        (Piece::Flush(a), Piece::Flush(b)) => a == b,
        (Piece::Bare(a), Piece::Bare(b)) => a == b,
        (Piece::Elided(a), Piece::Elided(b)) => a == b,
        (
            Piece::Hanging { offset: a, text: a1 },
            Piece::Hanging { offset: b, text: b1 },
        ) => a == b && a1 == b1,
        (
            Piece::Span { header: a, line: a1, column: a2 },
            Piece::Span { header: b, line: b1, column: b2 },
        ) => a == b && (points_abroad(rules, fixture, a) || (a1 == b1 && a2 == b2)),
        (
            Piece::Numbered { number: a, rest: a1 },
            Piece::Numbered { number: b, rest: b1 },
        ) => a1 == b1 && (foreign || a == b),
        _ => false,
    }
}

/// Whether the lines of two diagnostics are the same but for where in other files they
/// point.
pub open spec fn all_same_but_abroad(
    rules: Rules,
    fixture: Seq<char>,
    one: Seq<Piece>,
    other: Seq<Piece>,
) -> bool {
    one.len() == other.len() && forall|i: int|
        0 <= i < one.len() ==> same_but_abroad(
            rules,
            fixture,
            #[trigger] one[i],
            other[i],
            abroad_at(rules, fixture, one, i as nat),
        )
}

// ---------------------------------------------------------------------------
// Reading a line that is set in, or ends in a position.
// ---------------------------------------------------------------------------

proof fn lemma_dependencies_framed(
    front: Seq<char>,
    s: Seq<char>,
    back: Seq<char>,
    dependencies: Seq<(Seq<char>, Seq<char>)>,
)
    requires
        is_frame(front, back),
        forall|i: int|
            0 <= i < dependencies.len() ==> (#[trigger] dependencies[i]).0.len() > 0
                ==> is_unframed(dependencies[i].0),
    ensures
        dependencies_replaced(front + s + back, dependencies) == front + dependencies_replaced(
            s,
            dependencies,
        ) + back,
    decreases dependencies.len(),
{
    if dependencies.len() > 0 {
        let rest = dependencies.drop_first();
        let (path, name) = dependencies[0];
        assert(dependencies[0].0 == path);
        lemma_dir_framed(front, s, back, path, name);
        assert forall|i: int| 0 <= i < rest.len() && (#[trigger] rest[i]).0.len() > 0 implies
            is_unframed(rest[i].0) by {
            assert(rest[i] == dependencies[i + 1]);
        }
        lemma_dependencies_framed(front, dir_replaced(s, path, name), back, rest);
    }
}

/// Paths are rewritten in a frame as they are without one.
proof fn lemma_paths_framed(
    rules: Rules,
    fixture: Seq<char>,
    front: Seq<char>,
    s: Seq<char>,
    back: Seq<char>,
)
    requires
        is_settled(rules),
        is_frame(front, back),
    ensures
        paths_rewritten(rules, front + s + back, fixture) == front + paths_rewritten(
            rules,
            s,
            fixture,
        ) + back,
{
    let l1 = dir_replaced(s, rules.scratch_absolute, fixture);
    let l2 = dir_replaced(l1, rules.scratch_root, SCRATCH@);
    let l3 = replace(l2, rules.scratch_relative, fixture);
    let l4 = replace(l3, rules.bin, CRATE@);
    let l5 = sysroot_replaced(l4);
    lemma_dir_framed(front, s, back, rules.scratch_absolute, fixture);
    lemma_dir_framed(front, l1, back, rules.scratch_root, SCRATCH@);
    lemma_replace_framed(front, l2, back, rules.scratch_relative, fixture);
    lemma_replace_framed(front, l3, back, rules.bin, CRATE@);
    lemma_toolchain_framed(front, l4, back);
    let l6 = match rules.cargo_home {
        Some(home) => dir_replaced(registry_replaced(l5, home), home, CARGO_HOME@),
        None => l5,
    };
    if let Some(home) = rules.cargo_home {
        lemma_registry_framed(front, l5, back, home);
        lemma_dir_framed(front, registry_replaced(l5, home), back, home, CARGO_HOME@);
    }
    lemma_dir_framed(front, l6, back, rules.manifest_dir, DIR@);
    lemma_dependencies_framed(
        front,
        dir_replaced(l6, rules.manifest_dir, DIR@),
        back,
        rules.dependencies,
    );
}

/// White space in front of a text is all that trimming its start takes from the two.
proof fn lemma_trim_spaces(n: int, text: Seq<char>)
    requires
        0 <= n,
    ensures
        trim_start(spaces(n) + text) == trim_start(text),
        leading(spaces(n) + text, Class::Whitespace) == n + leading(text, Class::Whitespace),
{
    let line = spaces(n) + text;
    let k = leading(text, Class::Whitespace);
    lemma_leading(text, Class::Whitespace);
    assert forall|i: int| 0 <= i < n + k implies Class::Whitespace.has(line[i]) by {
        if i >= n {
            assert(line[i] == text[i - n]);
        }
    }
    if n + k < line.len() {
        assert(line[n + k as int] == text[k as int]);
    }
    lemma_leading_is(line, Class::Whitespace, (n + k) as nat);
    assert(line.skip(n + k) =~= text.skip(k as int));
}

/// A line that is set in reads as it does at the margin, set in.
proof fn lemma_read_set_in(rules: Rules, fixture: Seq<char>, n: int, text: Seq<char>)
    requires
        is_settled(rules),
        0 <= n,
    ensures
        read(rules, fixture, spaces(n) + text) == spaces(n) + read(rules, fixture, text),
{
    let front = spaces(n);
    let inner = paths_rewritten(rules, text, fixture);
    lemma_paths_framed(rules, fixture, front, text, seq![]);
    assert(front + text + seq![] =~= front + text);
    assert(front + inner + seq![] =~= front + inner);
    lemma_trim_spaces(n, inner);
    let body = trim_start(inner);
    lemma_leading(inner, Class::Whitespace);
    let line = front + inner;
    assert(line.take(line.len() - body.len()) =~= front + inner.take(inner.len() - body.len()));
    assert(count_hidden(line) =~= front + count_hidden(inner));
}

/// A text that begins with something other than white space is not trimmed there.
proof fn lemma_solid(text: Seq<char>)
    requires
        text.len() > 0,
        !Class::Whitespace.has(text[0]),
    ensures
        trim_start(text) == text,
        leading(text, Class::Whitespace) == 0,
{
    lemma_leading_is(text, Class::Whitespace, 0);
    assert(text.skip(0) =~= text);
}

proof fn lemma_arrow(text: Seq<char>)
    requires
        has_arrow(text),
    ensures
        text.len() >= 4,
        text[0] == '-' || text[0] == ':',
        !Class::Whitespace.has(text[0]),
        trim_start(text) == text,
        target_of(text) == Some(text.skip(4)),
{
    reveal_strlit("--> ");
    reveal_strlit("::: ");
    if starts_with(text, "--> "@) {
        assert(text.subrange(0, 4)[0] == '-');
    } else {
        assert(text.subrange(0, 4)[0] == ':');
    }
    lemma_solid(text);
}

proof fn lemma_row(text: Seq<char>)
    requires
        is_row(text),
    ensures
        text.len() > 0,
        text[0] == '|' || text[0] == '=',
        marks_gutter(text, false),
        trim_start(text) == text,
        target_of(text) is None,
        is_placed(text, 1),
{
    reveal_strlit("|");
    reveal_strlit("| ");
    reveal_strlit("= ");
    reveal_strlit("--> ");
    reveal_strlit("::: ");
    if starts_with(text, "| "@) {
        assert(text.subrange(0, 2)[0] == '|');
    } else if starts_with(text, "= "@) {
        assert(text.subrange(0, 2)[0] == '=');
    }
    lemma_solid(text);
    if starts_with(text, "--> "@) {
        assert(text.subrange(0, 4)[0] == '-');
    }
    if starts_with(text, "::: "@) {
        assert(text.subrange(0, 4)[0] == ':');
    }
    lemma_unnumbered(text);
}

/// A text that begins with neither a digit nor a space has no number to skip.
proof fn lemma_unnumbered(text: Seq<char>)
    requires
        text.len() > 0,
        !is_digit(text[0]),
        text[0] != ' ',
    ensures
        leading(text, Class::Digit) == 0,
        gap_in(text) == 0,
        text.skip(0) == text,
{
    lemma_leading_is(text, Class::Digit, 0);
    assert(text.skip(0) =~= text);
    lemma_leading_is(text, Class::Space, 0);
}

// ---------------------------------------------------------------------------
// What normalizing makes of each line.
// ---------------------------------------------------------------------------

/// What is left of a line once it is normalized, without the width of the gutter.
pub open spec fn slot_of(
    rules: Rules,
    fixture: Seq<char>,
    piece: Piece,
    foreign: bool,
) -> Slot {
    match piece {
        Piece::Flush(text) => Slot::Flush(read(rules, fixture, text)),
        Piece::Span { header, line, column } => if points_abroad(rules, fixture, header) {
            Slot::Placed(0, read(rules, fixture, header))
        } else {
            Slot::Placed(0, read(rules, fixture, header) + position_text(line, column))
        },
        Piece::Bare(rest) => Slot::Placed(1, read(rules, fixture, rest)),
        Piece::Numbered { number, rest } => if foreign {
            Slot::Placed(1, read(rules, fixture, rest))
        } else {
            Slot::Placed(
                -(number.len() as int),
                read(rules, fixture, number + seq![' '] + rest),
            )
        },
        Piece::Elided(bars) => Slot::Elided(bars),
        Piece::Hanging { offset, text } => Slot::Hanging(offset, read(rules, fixture, text)),
    }
}

/// What is left of the lines of a diagnostic.
pub open spec fn slots_of(rules: Rules, fixture: Seq<char>, pieces: Seq<Piece>) -> Seq<Slot> {
    Seq::new(
        pieces.len(),
        |i: int|
            slot_of(rules, fixture, pieces[i], abroad_at(rules, fixture, pieces, i as nat)),
    )
}

/// White space that is not at the end of a text stays.
proof fn lemma_trim_end_keeps(text: Seq<char>)
    requires
        text.len() > 0,
        !Class::Whitespace.has(text.last()),
    ensures
        trim_end(text) == text,
{
    lemma_trailing_is(text, Class::Whitespace, 0);
    assert(text.take(text.len() as int) =~= text);
}

/// A text without trailing white space ends in something else.
proof fn lemma_ends_solid(text: Seq<char>)
    requires
        text.len() > 0,
        trim_end(text) == text,
    ensures
        !Class::Whitespace.has(text.last()),
{
    lemma_trailing(text, Class::Whitespace);
    assert(trim_end(text).len() == text.len() - trailing(text, Class::Whitespace));
}

proof fn lemma_flush_piece(rules: Rules, fixture: Seq<char>, text: Seq<char>, foreign: bool)
    requires
        text.len() > 0,
        'a' <= text[0] <= 'z',
        trim_end(text) == text,
        ({
            let out = read(rules, fixture, text);
            out.len() > 0 && 'a' <= out[0] <= 'z'
        }),
    ensures
        line_normalized(rules, fixture, text, foreign) == (read(rules, fixture, text), false),
{
    reveal(line_normalized);
    reveal_strlit("--> ");
    reveal_strlit("::: ");
    let out = read(rules, fixture, text);
    lemma_solid(text);
    lemma_solid(out);
    if starts_with(out, "--> "@) {
        assert(out.subrange(0, 4)[0] == '-');
    }
    if starts_with(out, "::: "@) {
        assert(out.subrange(0, 4)[0] == ':');
    }
}

proof fn lemma_bare_piece(
    rules: Rules,
    fixture: Seq<char>,
    rest: Seq<char>,
    width: int,
    foreign: bool,
)
    requires
        is_settled(rules),
        0 <= width,
        trim_end(rest) == rest,
        is_row(rest),
        is_row(read(rules, fixture, rest)),
    ensures
        line_normalized(rules, fixture, spaces(width + 1) + rest, foreign) == (
            spaces(width + 1) + read(rules, fixture, rest),
            foreign && rest[0] == '|',
        ),
{
    reveal(line_normalized);
    let line = spaces(width + 1) + rest;
    let out = read(rules, fixture, rest);
    lemma_row(rest);
    lemma_row(out);
    lemma_ends_solid(rest);
    assert(line.last() == rest.last());
    lemma_trim_end_keeps(line);
    lemma_trim_spaces(width + 1, rest);
    assert forall|i: int| 0 <= i < width + 1 implies Class::Margin.has(line[i]) by {}
    assert(line[width + 1] == rest[0]);
    lemma_leading_is(line, Class::Margin, (width + 1) as nat);
    assert(number_blanked(line) =~= line);
    lemma_read_set_in(rules, fixture, width + 1, rest);
    lemma_trim_spaces(width + 1, out);
}

proof fn lemma_foreign_row_piece(
    rules: Rules,
    fixture: Seq<char>,
    number: Seq<char>,
    rest: Seq<char>,
    width: int,
)
    requires
        is_settled(rules),
        is_number(number),
        number.len() <= width,
        rest.len() > 0,
        rest[0] == '|',
        trim_end(rest) == rest,
        is_row(read(rules, fixture, rest)),
    ensures
        line_normalized(
            rules,
            fixture,
            spaces(width - number.len()) + (number + seq![' '] + rest),
            true,
        ) == (spaces(width + 1) + read(rules, fixture, rest), true),
{
    reveal(line_normalized);
    let pad = width - number.len();
    let body = number + seq![' '] + rest;
    let line = spaces(pad) + body;
    let out = read(rules, fixture, rest);
    lemma_row(out);
    lemma_ends_solid(rest);
    assert(line.last() == rest.last());
    lemma_trim_end_keeps(line);
    lemma_trim_spaces(pad, body);
    assert(body[0] == number[0]);
    assert(is_digit(number[0]));
    lemma_solid(body);
    assert(in_snippet(line));
    assert forall|i: int| 0 <= i < width + 1 implies Class::Margin.has(line[i]) by {
        if i >= pad {
            assert(line[i] == body[i - pad]);
            if i - pad < number.len() {
                assert(body[i - pad] == number[i - pad]);
            }
        }
    }
    assert(line[width + 1] == rest[0]);
    lemma_leading_is(line, Class::Margin, (width + 1) as nat);
    assert(number_blanked(line) =~= spaces(width + 1) + rest);
    lemma_read_set_in(rules, fixture, width + 1, rest);
    lemma_trim_spaces(width + 1, out);
}

proof fn lemma_own_row_piece(
    rules: Rules,
    fixture: Seq<char>,
    number: Seq<char>,
    rest: Seq<char>,
    width: int,
)
    requires
        is_settled(rules),
        is_number(number),
        number.len() <= width,
        rest.len() > 0,
        trim_end(rest) == rest,
        is_numbered(read(rules, fixture, number + seq![' '] + rest)),
    ensures
        ({
            let body = number + seq![' '] + rest;
            line_normalized(rules, fixture, spaces(width - number.len()) + body, false) == (
                spaces(width - number.len()) + read(rules, fixture, body),
                false,
            )
        }),
{
    reveal(line_normalized);
    reveal_strlit("--> ");
    reveal_strlit("::: ");
    let pad = width - number.len();
    let body = number + seq![' '] + rest;
    let line = spaces(pad) + body;
    let out = read(rules, fixture, body);
    lemma_ends_solid(rest);
    assert(line.last() == rest.last());
    lemma_trim_end_keeps(line);
    lemma_read_set_in(rules, fixture, pad, body);
    lemma_leading(out, Class::Digit);
    assert(Class::Digit.has(out[0]));
    lemma_solid(out);
    lemma_trim_spaces(pad, out);
    if starts_with(out, "--> "@) {
        assert(out.subrange(0, 4)[0] == '-');
    }
    if starts_with(out, "::: "@) {
        assert(out.subrange(0, 4)[0] == ':');
    }
}

proof fn lemma_elided_piece(
    rules: Rules,
    fixture: Seq<char>,
    bars: Seq<char>,
    width: int,
    foreign: bool,
)
    requires
        is_settled(rules),
        0 <= width,
        trim_end(bars) == bars,
        is_drawn(bars),
    ensures
        line_normalized(rules, fixture, dotted(bars, width), foreign) == (
            dotted(bars, width),
            foreign,
        ),
        column(dotted(bars, width)) == 0,
        !opens_list(dotted(bars, width)),
{
    reveal(line_normalized);
    reveal_strlit("...");
    let line = dotted(bars, width);
    if bars.len() > 0 {
        lemma_ends_solid(bars);
        assert(line.last() == bars.last());
    }
    lemma_trim_end_keeps(line);
    lemma_solid(line);
    assert(line.take(0) =~= seq![]);
    lemma_leading_is(line, Class::Margin, 0);
    assert(number_blanked(line) =~= line);
    assert forall|i: int| 0 <= i < line.len() implies is_mark(line[i]) by {
        if i >= 3 + width {
            assert(line[i] == bars[i - 3 - width]);
        }
    }
    lemma_drawn_stays(rules, line, fixture);
    lemma_dots(line);
}

/// What begins with a dot is no span header, no count and no heading of a list.
proof fn lemma_dots(line: Seq<char>)
    requires
        line.len() > 0,
        line[0] == '.',
        trim_start(line) == line,
    ensures
        target_of(line) is None,
        count_hidden(line) == line,
        !opens_list(line),
{
    reveal_strlit("--> ");
    reveal_strlit("::: ");
    reveal_strlit("and ");
    reveal_strlit("= help: the following types implement trait ");
    reveal_strlit("= help: the following other types implement trait ");
    if starts_with(line, "--> "@) {
        assert(line.subrange(0, 4)[0] == '-');
    }
    if starts_with(line, "::: "@) {
        assert(line.subrange(0, 4)[0] == ':');
    }
    if starts_with(line, "and "@) {
        assert(line.subrange(0, 4)[0] == 'a');
    }
    if starts_with(line, HEADING@) {
        assert(line.subrange(0, HEADING@.len() as int)[0] == '=');
    }
    if starts_with(line, OTHER_HEADING@) {
        assert(line.subrange(0, OTHER_HEADING@.len() as int)[0] == '=');
    }
}

/// Where a span points, without its position, says whether it points at the fixture.
proof fn lemma_into_framed(target: Seq<char>, back: Seq<char>, fixture: Seq<char>)
    requires
        back.len() > 1,
        back[0] == ':',
        is_digit(back[1]),
        is_unnumbered(fixture),
    ensures
        is_into(target + back, fixture) == is_into(target, fixture),
{
    let whole = target + back;
    let n = fixture.len() as int;
    let m = target.len() as int;
    if starts_with(whole, fixture) {
        if n > m {
            assert(whole.subrange(0, n)[m] == ':');
            if n > m + 1 {
                assert(whole.subrange(0, n)[m + 1] == back[1]);
                assert(is_digit(fixture[m + 1]));
            } else {
                assert(whole.skip(n)[0] == back[1]);
            }
        } else {
            assert(target.subrange(0, n) =~= whole.subrange(0, n));
            assert(whole.skip(n)[0] == (if n < m {
                target[n]
            } else {
                ':'
            }));
            if n < m {
                assert(target.skip(n)[0] == target[n]);
            }
        }
    }
    if starts_with(target, fixture) {
        assert(whole.subrange(0, n) =~= target.subrange(0, n));
    }
}

/// Hiding a count changes nothing of what begins with an arrow.
proof fn lemma_arrow_has_no_count(text: Seq<char>)
    requires
        has_arrow(count_hidden(text)),
    ensures
        count_hidden(text) == text,
{
    reveal_strlit("and ");
    let body = trim_start(text);
    let out = count_hidden(text);
    lemma_arrow(out);
    lemma_leading(text, Class::Whitespace);
    if out != text {
        if text.len() > body.len() {
            assert(out[0] == text[0]);
            assert(Class::Whitespace.has(text[0]));
        } else {
            assert(out[0] == 'a');
        }
    }
}

/// A line that begins with an arrow, set in, is no count.
proof fn lemma_no_count(n: int, text: Seq<char>)
    requires
        0 <= n,
        text.len() > 0,
        text[0] == '-' || text[0] == ':',
    ensures
        count_hidden(spaces(n) + text) == spaces(n) + text,
        trim_start(spaces(n) + text) == text,
{
    reveal_strlit("and ");
    lemma_solid(text);
    lemma_trim_spaces(n, text);
    if starts_with(text, "and "@) {
        assert(text.subrange(0, 4)[0] == 'a');
    }
}

/// A span header as it stands: nothing is trimmed from its end, and it is no row of a
/// snippet.
proof fn lemma_span_stands(header: Seq<char>, line: Seq<char>, column: Seq<char>, width: int)
    requires
        0 <= width,
        has_arrow(header),
        is_number(column),
    ensures
        ({
            let whole = spaces(width) + header + position_text(line, column);
            trim_end(whole) == whole && !in_snippet(whole)
        }),
{
    let back = position_text(line, column);
    let whole = spaces(width) + header + back;
    lemma_arrow(header);
    assert(whole.last() == column.last());
    assert(is_digit(column[column.len() - 1]));
    lemma_trim_end_keeps(whole);
    assert(whole =~= spaces(width) + (header + back));
    lemma_solid(header + back);
    lemma_trim_spaces(width, header + back);
}

/// A position is what may stand behind a path.
proof fn lemma_position_frames(width: int, line: Seq<char>, column: Seq<char>)
    requires
        is_number(line),
        is_number(column),
    ensures
        is_frame(spaces(width), position_text(line, column)),
        is_digit(position_text(line, column)[1]),
{
    let back = position_text(line, column);
    assert forall|i: int| 0 <= i < back.len() implies (back[i] == ':' || is_digit(back[i])) && (
    back[i] == ':' ==> i == 0 || i == line.len() + 1) by {
        if 1 <= i < 1 + line.len() {
            assert(back[i] == line[i - 1]);
        } else if i > 1 + line.len() {
            assert(back[i] == column[i - line.len() - 2]);
        }
    }
    assert(back[1] == line[0]);
    assert(back[line.len() + 2int] == column[0]);
}

/// A span header as it is read, and where it points.
proof fn lemma_span_read(
    rules: Rules,
    fixture: Seq<char>,
    header: Seq<char>,
    line: Seq<char>,
    column: Seq<char>,
    width: int,
)
    requires
        is_settled(rules),
        0 <= width,
        has_arrow(read(rules, fixture, header)),
        is_number(line),
        is_number(column),
    ensures
        ({
            let back = position_text(line, column);
            let out = read(rules, fixture, header);
            let all = spaces(width) + (out + back);
            &&& read(rules, fixture, spaces(width) + header + back) == all
            &&& target_of(all) == Some(out.skip(4) + back)
        }),
{
    reveal_strlit("--> ");
    reveal_strlit("::: ");
    let back = position_text(line, column);
    let front = spaces(width);
    let out = read(rules, fixture, header);
    let body = out + back;
    lemma_arrow_has_no_count(paths_rewritten(rules, header, fixture));
    lemma_arrow(out);
    lemma_position_frames(width, line, column);
    lemma_paths_framed(rules, fixture, front, header, back);
    assert(front + out + back =~= front + body);
    lemma_no_count(width, body);
    assert(body.subrange(0, 4) =~= out.subrange(0, 4));
    assert(body.skip(4) =~= out.skip(4) + back);
}

proof fn lemma_span_piece(
    rules: Rules,
    fixture: Seq<char>,
    header: Seq<char>,
    line: Seq<char>,
    column: Seq<char>,
    width: int,
    foreign: bool,
)
    requires
        is_settled(rules),
        is_unnumbered(fixture),
        0 <= width,
        has_arrow(header),
        has_arrow(read(rules, fixture, header)),
        is_number(line),
        is_number(column),
    ensures
        ({
            let out = read(rules, fixture, header);
            let abroad = points_abroad(rules, fixture, header);
            line_normalized(
                rules,
                fixture,
                spaces(width) + header + position_text(line, column),
                foreign,
            ) == (
                spaces(width) + (if abroad {
                    out
                } else {
                    out + position_text(line, column)
                }),
                abroad,
            )
        }),
{
    reveal(line_normalized);
    let back = position_text(line, column);
    let out = read(rules, fixture, header);
    let all = spaces(width) + (out + back);
    lemma_span_stands(header, line, column, width);
    lemma_span_read(rules, fixture, header, line, column, width);
    lemma_position_frames(width, line, column);
    lemma_into_framed(out.skip(4), back, fixture);
    if points_abroad(rules, fixture, header) {
        let path = spaces(width) + out;
        assert(all =~= path + seq![':'] + line + seq![':'] + column);
        law_foreign_positions_make_no_difference(path, line, column);
    }
}

/// A heading, a `note:` and a `help:` begin with a letter.
proof fn lemma_letter(text: Seq<char>)
    requires
        opens_diagnostic(text) || is_attached(text),
    ensures
        text.len() > 0,
        'a' <= text[0] <= 'z',
{
    reveal_strlit("error:");
    reveal_strlit("error[");
    reveal_strlit("warning:");
    reveal_strlit("warning[");
    reveal_strlit("note:");
    reveal_strlit("help:");
    if starts_with(text, "error:"@) {
        assert(text.subrange(0, 6)[0] == 'e');
    } else if starts_with(text, "error["@) {
        assert(text.subrange(0, 6)[0] == 'e');
    } else if starts_with(text, "warning:"@) {
        assert(text.subrange(0, 8)[0] == 'w');
    } else if starts_with(text, "warning["@) {
        assert(text.subrange(0, 8)[0] == 'w');
    } else if starts_with(text, "note:"@) {
        assert(text.subrange(0, 5)[0] == 'n');
    } else {
        assert(text.subrange(0, 5)[0] == 'h');
    }
}

/// Spaces take a byte each.
proof fn lemma_spaces_bytes(n: int)
    requires
        0 <= n,
    ensures
        byte_len(spaces(n)) == n,
    decreases n,
{
    if n > 0 {
        assert(spaces(n).drop_first() =~= spaces(n - 1));
        lemma_spaces_bytes(n - 1);
    }
}

/// Where a text that is set in begins.
proof fn lemma_column(n: int, text: Seq<char>)
    requires
        0 <= n,
        text.len() > 0,
        !Class::Whitespace.has(text[0]),
    ensures
        column(spaces(n) + text) == n,
        trim_start(spaces(n) + text) == text,
        opens_list(spaces(n) + text) == opens_list(text),
        opens_list(text) ==> starts_with(text, "= "@),
{
    reveal_strlit("= ");
    reveal_strlit("= help: the following types implement trait ");
    reveal_strlit("= help: the following other types implement trait ");
    lemma_solid(text);
    if starts_with(text, HEADING@) {
        assert(text.subrange(0, 2) =~= HEADING@.subrange(0, 2));
        assert(HEADING@.subrange(0, 2) =~= "= "@);
    } else if starts_with(text, OTHER_HEADING@) {
        assert(text.subrange(0, 2) =~= OTHER_HEADING@.subrange(0, 2));
        assert(OTHER_HEADING@.subrange(0, 2) =~= "= "@);
    }
    lemma_trim_spaces(n, text);
    assert((spaces(n) + text).take(n) =~= spaces(n));
    lemma_spaces_bytes(n);
}

/// What heads a diagnostic heads no list.
proof fn lemma_heads_no_list(text: Seq<char>)
    requires
        heads(text),
    ensures
        column(text) == 0,
        !opens_list(text),
{
    reveal_strlit("= ");
    lemma_letter(text);
    lemma_column(0, text);
    assert(spaces(0) + text =~= text);
    if starts_with(text, "= "@) {
        assert(text.subrange(0, 2)[0] == '=');
    }
}

/// A span header has its place in a diagnostic, with its position and without.
proof fn lemma_span_placed(header: Seq<char>, back: Seq<char>, width: int)
    requires
        has_arrow(header),
        1 <= width,
    ensures
        is_placed(header + back, width),
        starts_with(header, "--> "@) ==> starts_with(header + back, "--> "@),
{
    reveal_strlit("--> ");
    reveal_strlit("::: ");
    let body = header + back;
    lemma_arrow(header);
    assert(body[0] == header[0]);
    assert(body.subrange(0, 4) =~= header.subrange(0, 4));
    lemma_unnumbered(body);
}

/// Whether the text of a slot is where its offset says, and whether it heads a list or is
/// the summary of one does not depend on the width.
spec fn sits(slot: Slot, width: int) -> bool {
    let line = laid(slot, width);
    match slot {
        Slot::Flush(_) => column(line) == 0 && !opens_list(line),
        Slot::Elided(_) => column(line) == 0 && !opens_list(line),
        Slot::Placed(offset, body) => {
            &&& column(line) == width + offset < ENTRY_COLUMN
            &&& opens_list(line) == opens_list(body)
            &&& opens_list(body) ==> starts_with(body, "= "@)
        },
        Slot::Hanging(offset, text) => {
            &&& column(line) == width + offset
            &&& trim_start(line) == text
            &&& !opens_list(line)
        },
    }
}

/// Whether what hangs off a list is set in as far as an entry.
spec fn is_listed(slot: Slot, note: Option<(int, Seq<char>)>) -> bool {
    slot matches Slot::Hanging(offset, _) ==> (note matches Some((from, body)) && (opens_list(
        body,
    ) ==> offset >= ENTRY_OFFSET && from + 2 < offset))
}

/// Whether a line of a diagnostic can stand where it does, under a gutter of this width.
spec fn can_be_shown(
    rules: Rules,
    fixture: Seq<char>,
    piece: Piece,
    width: int,
    foreign: bool,
    note: Option<(int, Seq<char>)>,
) -> bool {
    &&& is_settled(rules)
    &&& is_unnumbered(fixture)
    &&& 1 <= width <= 10
    &&& can_stand(rules, fixture, piece, foreign, note)
    &&& (piece matches Piece::Numbered { number, .. } ==> number.len() <= width)
}

/// Whether a line is normalized to its slot, which has its place in a diagnostic.
spec fn comes_to_slot(
    rules: Rules,
    fixture: Seq<char>,
    piece: Piece,
    width: int,
    foreign: bool,
    note: Option<(int, Seq<char>)>,
) -> bool {
    let slot = slot_of(rules, fixture, piece, foreign);
    &&& line_normalized(rules, fixture, shown(piece, width), foreign) == (
        laid(slot, width),
        leads_abroad(rules, fixture, piece, foreign),
    )
    &&& fits(slot, width, note)
    &&& sits(slot, width)
    &&& is_listed(slot, note)
}

proof fn lemma_flush_comes_to_slot(
    rules: Rules,
    fixture: Seq<char>,
    piece: Piece,
    width: int,
    foreign: bool,
    note: Option<(int, Seq<char>)>,
)
    requires
        piece is Flush,
        can_be_shown(rules, fixture, piece, width, foreign, note),
    ensures
        comes_to_slot(rules, fixture, piece, width, foreign, note),
{
    let text = piece->Flush_0;
    let out = read(rules, fixture, text);
    lemma_letter(text);
    lemma_letter(out);
    lemma_flush_piece(rules, fixture, text, foreign);
    lemma_heads_no_list(out);
}

proof fn lemma_span_comes_to_slot(
    rules: Rules,
    fixture: Seq<char>,
    piece: Piece,
    width: int,
    foreign: bool,
    note: Option<(int, Seq<char>)>,
)
    requires
        piece is Span,
        can_be_shown(rules, fixture, piece, width, foreign, note),
    ensures
        comes_to_slot(rules, fixture, piece, width, foreign, note),
{
    let (line, column) = (piece->line, piece->column);
    let back = position_text(line, column);
    let out = read(rules, fixture, piece->header);
    lemma_span_piece(rules, fixture, piece->header, line, column, width, foreign);
    lemma_arrow(out);
    lemma_span_placed(out, seq![], width);
    assert(out + seq![] =~= out);
    lemma_span_placed(out, back, width);
    lemma_column(width, out);
    lemma_column(width, out + back);
}

proof fn lemma_bare_comes_to_slot(
    rules: Rules,
    fixture: Seq<char>,
    piece: Piece,
    width: int,
    foreign: bool,
    note: Option<(int, Seq<char>)>,
)
    requires
        piece is Bare,
        can_be_shown(rules, fixture, piece, width, foreign, note),
    ensures
        comes_to_slot(rules, fixture, piece, width, foreign, note),
{
    let rest = piece->Bare_0;
    let out = read(rules, fixture, rest);
    lemma_bare_piece(rules, fixture, rest, width, foreign);
    lemma_row(out);
    lemma_column(width + 1, out);
}

proof fn lemma_numbered_comes_to_slot(
    rules: Rules,
    fixture: Seq<char>,
    piece: Piece,
    width: int,
    foreign: bool,
    note: Option<(int, Seq<char>)>,
)
    requires
        piece is Numbered,
        can_be_shown(rules, fixture, piece, width, foreign, note),
    ensures
        comes_to_slot(rules, fixture, piece, width, foreign, note),
{
    let (number, rest) = (piece->number, piece->rest);
    let body = number + seq![' '] + rest;
    if foreign {
        let out = read(rules, fixture, rest);
        lemma_foreign_row_piece(rules, fixture, number, rest, width);
        lemma_row(out);
        lemma_column(width + 1, out);
    } else {
        let out = read(rules, fixture, body);
        lemma_own_row_piece(rules, fixture, number, rest, width);
        lemma_leading(out, Class::Digit);
        assert(Class::Digit.has(out[0]));
        lemma_column(width - number.len(), out);
    }
}

proof fn lemma_hanging_comes_to_slot(
    rules: Rules,
    fixture: Seq<char>,
    piece: Piece,
    width: int,
    foreign: bool,
    note: Option<(int, Seq<char>)>,
)
    requires
        piece is Hanging,
        can_be_shown(rules, fixture, piece, width, foreign, note),
    ensures
        comes_to_slot(rules, fixture, piece, width, foreign, note),
{
    reveal(line_normalized);
    let (offset, text) = (piece->offset, piece->text);
    let out = read(rules, fixture, text);
    let line = spaces(width + offset) + text;
    lemma_ends_solid(text);
    assert(line.last() == text.last());
    lemma_trim_end_keeps(line);
    lemma_read_set_in(rules, fixture, width + offset, text);
    lemma_column(width + offset, out);
    lemma_no_row(out);
}

/// What marks no row is no span header and no attached note.
proof fn lemma_no_row(text: Seq<char>)
    requires
        text.len() > 0,
        !Class::Whitespace.has(text[0]),
        !marks_row(text),
    ensures
        !has_arrow(text),
        !starts_with(text, "= "@),
{
    reveal_strlit("--> ");
    reveal_strlit("::: ");
    reveal_strlit("= ");
    if has_arrow(text) {
        lemma_arrow(text);
        lemma_unnumbered(text);
    } else if starts_with(text, "= "@) {
        assert(text.subrange(0, 2)[0] == '=');
        lemma_unnumbered(text);
    }
}

/// What normalizing makes of a line, whatever the width of the gutter.
proof fn lemma_comes_to_slot(
    rules: Rules,
    fixture: Seq<char>,
    piece: Piece,
    width: int,
    foreign: bool,
    note: Option<(int, Seq<char>)>,
)
    requires
        can_be_shown(rules, fixture, piece, width, foreign, note),
    ensures
        comes_to_slot(rules, fixture, piece, width, foreign, note),
{
    match piece {
        Piece::Flush(_) => {
            lemma_flush_comes_to_slot(rules, fixture, piece, width, foreign, note);
        },
        Piece::Span { .. } => {
            lemma_span_comes_to_slot(rules, fixture, piece, width, foreign, note);
        },
        Piece::Bare(_) => {
            lemma_bare_comes_to_slot(rules, fixture, piece, width, foreign, note);
        },
        Piece::Numbered { .. } => {
            lemma_numbered_comes_to_slot(rules, fixture, piece, width, foreign, note);
        },
        Piece::Elided(bars) => {
            lemma_elided_piece(rules, fixture, bars, width, foreign);
        },
        Piece::Hanging { .. } => {
            lemma_hanging_comes_to_slot(rules, fixture, piece, width, foreign, note);
        },
    }
}

// ---------------------------------------------------------------------------
// The lines of a diagnostic, and those around it.
// ---------------------------------------------------------------------------

/// Whether the line after these may belong to a snippet that is not the fixture's.
spec fn foreign_after(
    rules: Rules,
    fixture: Seq<char>,
    lines: Seq<Seq<char>>,
    foreign: bool,
) -> bool
    decreases lines.len(),
{
    if lines.len() == 0 {
        foreign
    } else {
        foreign_after(
            rules,
            fixture,
            lines.drop_first(),
            line_normalized(rules, fixture, lines[0], foreign).1,
        )
    }
}

/// Lines are put together in any order.
proof fn lemma_in_turn(a: Seq<Seq<char>>, b: Seq<Seq<char>>, c: Seq<Seq<char>>)
    ensures
        a + (b + c) == (a + b) + c,
{
    assert(a + (b + c) =~= (a + b) + c);
}

/// Lines are normalized one after the other.
proof fn lemma_normalized_in_turn(
    rules: Rules,
    fixture: Seq<char>,
    first: Seq<Seq<char>>,
    second: Seq<Seq<char>>,
    foreign: bool,
)
    ensures
        lines_normalized(rules, fixture, first + second, foreign) == lines_normalized(
            rules,
            fixture,
            first,
            foreign,
        ) + lines_normalized(
            rules,
            fixture,
            second,
            foreign_after(rules, fixture, first, foreign),
        ),
    decreases first.len(),
{
    let all = first + second;
    let last = foreign_after(rules, fixture, first, foreign);
    let done = lines_normalized(rules, fixture, first, foreign);
    let more = lines_normalized(rules, fixture, second, last);
    if first.len() == 0 {
        assert(all =~= second);
        assert(done + more =~= more);
    } else {
        let rest = first.drop_first();
        let (line, next) = line_normalized(rules, fixture, first[0], foreign);
        assert(all[0] == first[0]);
        assert(all.drop_first() =~= rest + second);
        lemma_normalized_in_turn(rules, fixture, rest, second, next);
        let inner = lines_normalized(rules, fixture, rest, next);
        lemma_in_turn(seq![line], inner, more);
    }
}

/// What normalizing makes of the `i`th line beneath a message.
proof fn lemma_piece_at(
    rules: Rules,
    fixture: Seq<char>,
    pieces: Seq<Piece>,
    width: int,
    i: int,
    foreign: bool,
)
    requires
        is_settled(rules),
        is_unnumbered(fixture),
        1 <= width <= 10,
        has_span_first(rules, fixture, pieces),
        all_can_stand(rules, fixture, pieces),
        numbers_fit(pieces, width),
        0 <= i < pieces.len(),
        i == 0 || foreign == abroad_at(rules, fixture, pieces, i as nat),
    ensures
        line_normalized(rules, fixture, shown(pieces[i], width), foreign) == (
            laid(slots_of(rules, fixture, pieces)[i], width),
            abroad_at(rules, fixture, pieces, (i + 1) as nat),
        ),
{
    let slots = slots_of(rules, fixture, pieces);
    let at = abroad_at(rules, fixture, pieces, i as nat);
    let note = note_at(slots, None, i as nat);
    let piece = pieces[i];
    assert(can_stand(rules, fixture, piece, at, note));
    assert(slots[i] == slot_of(rules, fixture, piece, at));
    if i == 0 {
        lemma_span_comes_to_slot(rules, fixture, piece, width, foreign, note);
    } else {
        lemma_comes_to_slot(rules, fixture, piece, width, at, note);
    }
}

/// Lines that each come to something, in the state the one before left, come to all of it.
proof fn lemma_lines_come_to(
    rules: Rules,
    fixture: Seq<char>,
    rows: Seq<Seq<char>>,
    out: Seq<Seq<char>>,
    states: Seq<bool>,
)
    requires
        out.len() == rows.len(),
        states.len() == rows.len() + 1,
        forall|k: int|
            0 <= k < rows.len() ==> line_normalized(rules, fixture, #[trigger] rows[k], states[k])
                == (out[k], states[k + 1]),
    ensures
        lines_normalized(rules, fixture, rows, states[0]) == out,
        foreign_after(rules, fixture, rows, states[0]) == states.last(),
    decreases rows.len(),
{
    if rows.len() == 0 {
        assert(out =~= seq![]);
    } else {
        let (rows1, out1, states1) = (rows.drop_first(), out.drop_first(), states.drop_first());
        assert(line_normalized(rules, fixture, rows[0], states[0]) == (out[0], states[1]));
        assert forall|k: int| 0 <= k < rows1.len() implies line_normalized(
            rules,
            fixture,
            #[trigger] rows1[k],
            states1[k],
        ) == (out1[k], states1[k + 1]) by {
            assert(rows1[k] == rows[k + 1]);
        }
        lemma_lines_come_to(rules, fixture, rows1, out1, states1);
        assert(seq![out[0]] + out1 =~= out);
    }
}

/// What normalizing makes of what is beneath a message.
proof fn lemma_pieces(
    rules: Rules,
    fixture: Seq<char>,
    pieces: Seq<Piece>,
    width: int,
    foreign: bool,
)
    requires
        is_settled(rules),
        is_unnumbered(fixture),
        1 <= width <= 10,
        has_span_first(rules, fixture, pieces),
        all_can_stand(rules, fixture, pieces),
        numbers_fit(pieces, width),
    ensures
        lines_normalized(rules, fixture, shown_all(pieces, width), foreign) == laid_out(
            slots_of(rules, fixture, pieces),
            width,
        ),
        foreign_after(rules, fixture, shown_all(pieces, width), foreign) == abroad_at(
            rules,
            fixture,
            pieces,
            pieces.len(),
        ),
{
    let rows = shown_all(pieces, width);
    let out = laid_out(slots_of(rules, fixture, pieces), width);
    let states = Seq::new(
        pieces.len() + 1,
        |k: int|
            if k == 0 {
                foreign
            } else {
                abroad_at(rules, fixture, pieces, k as nat)
            },
    );
    assert forall|k: int| 0 <= k < rows.len() implies line_normalized(
        rules,
        fixture,
        #[trigger] rows[k],
        states[k],
    ) == (out[k], states[k + 1]) by {
        lemma_piece_at(rules, fixture, pieces, width, k, states[k]);
    }
    lemma_lines_come_to(rules, fixture, rows, out, states);
}

// ---------------------------------------------------------------------------
// What is left of a diagnostic, with its lists cut short.
// ---------------------------------------------------------------------------

/// Whether a slot has its place under gutters of both widths, below that note.
spec fn stands_in(slot: Slot, one: int, other: int, note: Option<(int, Seq<char>)>) -> bool {
    &&& fits(slot, one, note)
    &&& fits(slot, other, note)
    &&& sits(slot, one)
    &&& sits(slot, other)
    &&& is_listed(slot, note)
}

/// Whether slots have their places under gutters of both widths, below that note.
spec fn stand_in(slots: Seq<Slot>, one: int, other: int, note: Option<(int, Seq<char>)>) -> bool {
    forall|i: int|
        0 <= i < slots.len() ==> stands_in(
            #[trigger] slots[i],
            one,
            other,
            note_at(slots, note, i as nat),
        )
}

/// The note above a line is the same, counted from the line after the first.
proof fn lemma_note_shift(slots: Seq<Slot>, note: Option<(int, Seq<char>)>, i: nat)
    requires
        i < slots.len(),
    ensures
        note_at(slots.drop_first(), note_after(slots[0], note), i) == note_at(slots, note, i + 1),
    decreases i,
{
    if i == 0 {
        assert(note_at(slots, note, 1) == note_after(slots[0], note_at(slots, note, 0)));
    } else {
        lemma_note_shift(slots, note, (i - 1) as nat);
        assert(slots.drop_first()[i - 1] == slots[i as int]);
    }
}

/// The first of the slots, and the others, in their places.
proof fn lemma_stand_first(
    slots: Seq<Slot>,
    one: int,
    other: int,
    note: Option<(int, Seq<char>)>,
)
    requires
        slots.len() > 0,
        stand_in(slots, one, other, note),
    ensures
        stands_in(slots[0], one, other, note),
        stand_in(slots.drop_first(), one, other, note_after(slots[0], note)),
{
    let rest = slots.drop_first();
    let next = note_after(slots[0], note);
    assert(stands_in(slots[0], one, other, note_at(slots, note, 0)));
    assert forall|i: int| 0 <= i < rest.len() implies stands_in(
        #[trigger] rest[i],
        one,
        other,
        note_at(rest, next, i as nat),
    ) by {
        lemma_note_shift(slots, note, i as nat);
        assert(rest[i] == slots[i + 1]);
    }
}

/// A slot in its place before others in theirs.
proof fn lemma_fit_before(slot: Slot, rest: Seq<Slot>, width: int, note: Option<(int, Seq<char>)>)
    requires
        fits(slot, width, note),
        fit(rest, width, note_after(slot, note)),
    ensures
        fit(seq![slot] + rest, width, note),
        laid_out(seq![slot] + rest, width) == seq![laid(slot, width)] + laid_out(rest, width),
{
    let slots = seq![slot] + rest;
    assert(slots.drop_first() =~= rest);
    assert forall|i: int| 0 <= i < slots.len() implies fits(
        #[trigger] slots[i],
        width,
        note_at(slots, note, i as nat),
    ) by {
        if i > 0 {
            lemma_note_shift(slots, note, (i - 1) as nat);
            assert(slots[i] == rest[i - 1]);
            assert(fits(rest[i - 1], width, note_at(rest, note_after(slot, note), (i - 1) as nat)));
        }
    }
    assert(laid_out(slots, width) =~= seq![laid(slot, width)] + laid_out(rest, width));
}

/// Spaces are as many characters as bytes.
proof fn lemma_chars_in_spaces(n: int, text: Seq<char>, bytes: int)
    requires
        0 <= bytes <= n,
    ensures
        chars_within(spaces(n) + text, bytes) == bytes,
    decreases bytes,
{
    let s = spaces(n) + text;
    if bytes > 0 {
        assert(s[0] == ' ');
        assert(s.drop_first() =~= spaces(n - 1) + text);
        lemma_chars_in_spaces(n - 1, text, bytes - 1);
    } else if s.len() > 0 {
        assert(width(s[0]) > 0);
    }
}

/// The summary that takes the place of an entry is set in two columns less.
proof fn lemma_summary_laid(offset: int, text: Seq<char>, width: int)
    requires
        2 <= width + offset,
        sits(Slot::Hanging(offset, text), width),
    ensures
        summary_for(laid(Slot::Hanging(offset, text), width)) == laid(
            Slot::Hanging(offset - 2, SUMMARY@),
            width,
        ),
{
    let n = width + offset;
    let line = spaces(n) + text;
    lemma_chars_in_spaces(n, text, n - 2);
    assert(line.take(n - 2) =~= spaces(n - 2));
}

/// A summary is a further line of the note it hangs off.
proof fn lemma_summary_fits(offset: int, width: int, note: Option<(int, Seq<char>)>)
    requires
        note matches Some((from, _)) && 0 <= width + from && from < offset,
    ensures
        fits(Slot::Hanging(offset, SUMMARY@), width, note),
{
    reveal_strlit("and $N others");
    reveal_strlit("|");
    reveal_strlit("| ");
    reveal_strlit("= ");
    reveal_strlit("--> ");
    reveal_strlit("::: ");
    let text = SUMMARY@;
    assert(text[0] == 'a');
    lemma_unnumbered(text);
    assert(!marks_gutter(text, false)) by {
        if starts_with(text, "| "@) {
            assert(text.subrange(0, 2)[0] == '|');
        } else if starts_with(text, "= "@) {
            assert(text.subrange(0, 2)[0] == '=');
        } else if starts_with(text, "--> "@) {
            assert(text.subrange(0, 4)[0] == '-');
        } else if starts_with(text, "::: "@) {
            assert(text.subrange(0, 4)[0] == ':');
        }
    }
}

/// What is kept of a slot where a list is cut short, without the width.
spec fn kept_slots(slots: Seq<Slot>, listed: Option<nat>) -> Seq<Slot> {
    let goes_on = slots.len() > 1 && slots[1] is Hanging && slots[1]->Hanging_0
        == slots[0]->Hanging_0;
    if slots[0] is Hanging && listed is Some && slots[0]->Hanging_1 != SUMMARY@ {
        if listed->0 + 1 > SUMMARIZED_AT {
            seq![]
        } else if listed->0 + 1 == SUMMARIZED_AT && goes_on {
            seq![Slot::Hanging(slots[0]->Hanging_0 - 2, SUMMARY@)]
        } else {
            seq![slots[0]]
        }
    } else {
        seq![slots[0]]
    }
}

/// The list that is open after a slot.
spec fn slot_listed(slot: Slot, listed: Option<nat>) -> Option<nat> {
    match slot {
        Slot::Placed(_, body) => if opens_list(body) {
            Some(0)
        } else {
            None
        },
        Slot::Hanging(_, text) => if listed is Some && text != SUMMARY@ {
            Some(listed->0 + 1)
        } else {
            None
        },
        _ => None,
    }
}

/// Whether a list is open only beneath its heading.
spec fn is_open(listed: Option<nat>, note: Option<(int, Seq<char>)>) -> bool {
    listed is Some ==> (note matches Some((_, body)) && opens_list(body))
}

/// One step of the cut, under a gutter of one width.
proof fn lemma_cut_step(
    slots: Seq<Slot>,
    after: Seq<Seq<char>>,
    listed: Option<nat>,
    note: Option<(int, Seq<char>)>,
    width: int,
)
    requires
        slots.len() > 0,
        1 <= width,
        fits(slots[0], width, note),
        sits(slots[0], width),
        slots.len() > 1 ==> sits(slots[1], width),
        is_listed(slots[0], note),
        is_open(listed, note),
        after.len() == 0 || after[0].len() == 0,
    ensures
        truncate_from(laid_out(slots, width) + after, 0, listed) == laid_out(
            kept_slots(slots, listed),
            width,
        ) + truncate_from(
            laid_out(slots.drop_first(), width) + after,
            0,
            slot_listed(slots[0], listed),
        ),
{
    let all = laid_out(slots, width) + after;
    let slot = slots[0];
    let kept = kept_slots(slots, listed);
    assert(all[0] == laid(slot, width));
    assert(all.drop_first() =~= laid_out(slots.drop_first(), width) + after);
    lemma_truncate_one(all, listed);
    assert(next_listed(all[0], listed) == slot_listed(slot, listed));
    if slot is Hanging && listed is Some && slot->Hanging_1 != SUMMARY@ {
        let (offset, text) = (slot->Hanging_0, slot->Hanging_1);
        if slots.len() > 1 {
            assert(all[1] == laid(slots[1], width));
        } else if all.len() > 1 {
            assert(all[1] == after[0]);
            lemma_blank_kept(after[0]);
        }
        lemma_summary_laid(offset, text, width);
    }
    assert(kept_of(all, listed) =~= laid_out(kept, width));
}

/// Cutting the lists of a diagnostic short leaves it in its places, and what that is does
/// not depend on the width: the result gives what is left of it and of the lines behind.
proof fn lemma_cut(
    slots: Seq<Slot>,
    after: Seq<Seq<char>>,
    listed: Option<nat>,
    note: Option<(int, Seq<char>)>,
    one: int,
    other: int,
) -> (r: (Seq<Slot>, Seq<Seq<char>>))
    requires
        1 <= one,
        1 <= other,
        stand_in(slots, one, other, note),
        is_open(listed, note),
        after.len() == 0 || after[0].len() == 0,
    ensures
        truncate_from(laid_out(slots, one) + after, 0, listed) == laid_out(r.0, one) + r.1,
        truncate_from(laid_out(slots, other) + after, 0, listed) == laid_out(r.0, other) + r.1,
        fit(r.0, one, note),
        fit(r.0, other, note),
        slots.len() > 0 && !(slots[0] is Hanging) ==> r.0.len() > 0 && r.0[0] == slots[0],
        r.1.len() == 0 || r.1[0].len() == 0,
    decreases slots.len(),
{
    if slots.len() == 0 {
        let back = truncate_from(after, 0, None);
        if after.len() > 0 {
            lemma_blank_kept(after[0]);
        }
        lemma_truncate_rest(after, listed);
        assert(laid_out(slots, one) + after =~= after);
        assert(laid_out(slots, other) + after =~= after);
        assert(laid_out(slots, one) + back =~= back);
        assert(laid_out(slots, other) + back =~= back);
        (slots, back)
    } else {
        let slot = slots[0];
        let next = note_after(slot, note);
        let rest = slots.drop_first();
        let here = kept_slots(slots, listed);
        lemma_stand_first(slots, one, other, note);
        if slots.len() > 1 {
            assert(stands_in(slots[1], one, other, note_at(slots, note, 1)));
        }
        lemma_cut_step(slots, after, listed, note, one);
        lemma_cut_step(slots, after, listed, note, other);
        let (done, back) = lemma_cut(rest, after, slot_listed(slot, listed), next, one, other);
        lemma_cut_put(slot, here, done, listed, note, one);
        lemma_cut_put(slot, here, done, listed, note, other);
        let r = here + done;
        lemma_in_turn(laid_out(here, one), laid_out(done, one), back);
        lemma_in_turn(laid_out(here, other), laid_out(done, other), back);
        (r, back)
    }
}

/// What is kept of a slot goes before what is left of the others.
proof fn lemma_cut_put(
    slot: Slot,
    here: Seq<Slot>,
    done: Seq<Slot>,
    listed: Option<nat>,
    note: Option<(int, Seq<char>)>,
    width: int,
)
    requires
        fits(slot, width, note),
        is_listed(slot, note),
        is_open(listed, note),
        fit(done, width, note_after(slot, note)),
        here == seq![slot] || (slot is Hanging && listed is Some && (here == Seq::<Slot>::empty()
            || here == seq![Slot::Hanging(slot->Hanging_0 - 2, SUMMARY@)])),
    ensures
        fit(here + done, width, note),
        laid_out(here + done, width) == laid_out(here, width) + laid_out(done, width),
{
    assert(laid_out(here + done, width) =~= laid_out(here, width) + laid_out(done, width));
    if here == seq![slot] {
        lemma_fit_before(slot, done, width, note);
    } else if here.len() == 0 {
        assert(here + done =~= done);
    } else {
        lemma_summary_fits(slot->Hanging_0 - 2, width, note);
        lemma_fit_before(here[0], done, width, note);
    }
}

/// The summary of a list within a message is a line of the message.
proof fn lemma_summary_in_message(line: Seq<char>)
    requires
        column(line) >= ENTRY_COLUMN,
    ensures
        row(summary_for(line), None, false) is Other,
{
    reveal_strlit("and $N others");
    let n = chars_within(line, column(line) - 2) as int;
    let out = summary_for(line);
    lemma_summary_set_in(line);
    let pad = line.take(n);
    let lead = leading(out, Class::Space) as int;
    lemma_leading(out, Class::Space);
    assert(out[n] == 'a');
    assert(lead <= n);
    let rest = out.skip(lead);
    assert(rest[0] == out[lead]);
    assert(Class::Whitespace.has(out[0])) by {
        assert(Class::Whitespace.has(line[0]));
        assert(out[0] == pad[0]);
    }
    assert(lead < n ==> Class::Whitespace.has(out[lead])) by {
        if lead < n {
            assert(Class::Whitespace.has(line[lead]));
            assert(out[lead] == pad[lead]);
        }
    }
    lemma_unmarked(rest);
    lemma_leading_is(rest, Class::Digit, 0);
    lemma_leading_is(rest, Class::Space, 0);
    assert(rest.skip(0) =~= rest);
    assert(out.skip(lead + 0) =~= rest);
    lemma_unheaded(out);
}

/// What begins with white space or a letter marks no gutter.
proof fn lemma_unmarked(text: Seq<char>)
    requires
        text.len() > 0,
        text[0] == 'a' || Class::Whitespace.has(text[0]),
    ensures
        !marks_gutter(text, false),
{
    reveal_strlit("|");
    reveal_strlit("| ");
    reveal_strlit("= ");
    reveal_strlit("--> ");
    reveal_strlit("::: ");
    if starts_with(text, "| "@) {
        assert(text.subrange(0, 2)[0] == '|');
    } else if starts_with(text, "= "@) {
        assert(text.subrange(0, 2)[0] == '=');
    } else if starts_with(text, "--> "@) {
        assert(text.subrange(0, 4)[0] == '-');
    } else if starts_with(text, "::: "@) {
        assert(text.subrange(0, 4)[0] == ':');
    }
}

/// What begins with white space heads nothing.
proof fn lemma_unheaded(text: Seq<char>)
    requires
        text.len() > 0,
        Class::Whitespace.has(text[0]),
    ensures
        !opens_diagnostic(text),
        !is_attached(text),
        !starts_with(text, "..."@),
{
    reveal_strlit("...");
    if heads(text) {
        lemma_letter(text);
    }
    if starts_with(text, "..."@) {
        assert(text.subrange(0, 3)[0] == '.');
    }
}

/// What is kept of a message is one.
proof fn lemma_message_kept(message: Seq<Seq<char>>, kept: Seq<Seq<char>>)
    requires
        is_message(message),
        forall|i: int| 0 <= i < kept.len() ==> is_kept(message, #[trigger] kept[i]),
    ensures
        is_message(kept),
{
    assert forall|i: int| 0 <= i < kept.len() implies row(#[trigger] kept[i], None, false) is
        Other by {
        assert(is_kept(message, kept[i]));
        let k = choose|k: int|
            0 <= k < message.len() && (kept[i] == #[trigger] message[k] || (column(message[k])
                >= ENTRY_COLUMN && kept[i] == summary_for(message[k])));
        assert(row(message[k], None, false) is Other);
        if kept[i] != message[k] {
            lemma_summary_in_message(message[k]);
        }
    }
}

/// A heading is kept, and leaves no list open.
proof fn lemma_heading_kept(heading: Seq<char>, rest: Seq<Seq<char>>, listed: Option<nat>)
    requires
        heads(heading),
    ensures
        truncate_from(seq![heading] + rest, 0, listed) == seq![heading] + truncate_from(
            rest,
            0,
            None,
        ),
{
    let all = seq![heading] + rest;
    lemma_heads_no_list(heading);
    lemma_truncate_one(all, listed);
    assert(all.drop_first() =~= rest);
    assert(all[0] == heading);
}

/// What is beneath a message is cut the same whatever list the message left open.
proof fn lemma_header_closes(slots: Seq<Slot>, after: Seq<Seq<char>>, listed: Option<nat>, width: int)
    requires
        slots.len() > 0,
        slots[0] is Placed,
        sits(slots[0], width),
    ensures
        truncate_from(laid_out(slots, width) + after, 0, listed) == truncate_from(
            laid_out(slots, width) + after,
            0,
            None,
        ),
        column((laid_out(slots, width) + after)[0]) < ENTRY_COLUMN,
{
    let all = laid_out(slots, width) + after;
    assert(all[0] == laid(slots[0], width));
    lemma_truncate_rest(all, listed);
}

/// What is left of a text with a diagnostic in it, its lists cut short, is a text with
/// what is left of the diagnostic in it, and that does not depend on the width: the
/// result gives what comes of the lines in front, of the message, of what is beneath it
/// and of the lines behind.
proof fn lemma_truncated_body(
    before: Seq<Seq<char>>,
    heading: Seq<char>,
    message: Seq<Seq<char>>,
    slots: Seq<Slot>,
    after: Seq<Seq<char>>,
    one: int,
    other: int,
) -> (r: (Seq<Seq<char>>, Seq<Seq<char>>, Seq<Slot>, Seq<Seq<char>>))
    requires
        1 <= one,
        1 <= other,
        heads(heading),
        begins(before, heading),
        is_message(message),
        stand_in(slots, one, other, None),
        is_body(slots, one),
        is_body(slots, other),
        after.len() == 0 || after[0].len() == 0,
    ensures
        truncated(with_body(before, heading, message, slots, after, one)) == with_body(
            r.0,
            heading,
            r.1,
            r.2,
            r.3,
            one,
        ),
        truncated(with_body(before, heading, message, slots, after, other)) == with_body(
            r.0,
            heading,
            r.1,
            r.2,
            r.3,
            other,
        ),
        begins(r.0, heading),
        is_message(r.1),
        is_body(r.2, one),
        is_body(r.2, other),
        stands_apart(r.3),
{
    let a = laid_out(slots, one) + after;
    let b = laid_out(slots, other) + after;
    let top_a = seq![heading] + (message + a);
    let top_b = seq![heading] + (message + b);
    assert(stands_in(slots[0], one, other, note_at(slots, None, 0)));
    let (front, listed) = lemma_truncate_front(before, top_a, top_b, None);
    lemma_heading_kept(heading, message + a, listed);
    lemma_heading_kept(heading, message + b, listed);
    lemma_header_closes(slots, after, None, one);
    lemma_header_closes(slots, after, None, other);
    let (middle, open) = lemma_truncate_front(message, a, b, None);
    lemma_message_kept(message, middle);
    lemma_header_closes(slots, after, open, one);
    lemma_header_closes(slots, after, open, other);
    let (body, back) = lemma_cut(slots, after, None, None, one, other);
    lemma_put_together(before, heading, message, slots, after, one);
    lemma_put_together(before, heading, message, slots, after, other);
    lemma_put_together(front, heading, middle, body, back, one);
    lemma_put_together(front, heading, middle, body, back, other);
    (front, middle, body, back)
}

/// A text with a diagnostic in it, put together from its end.
proof fn lemma_put_together(
    before: Seq<Seq<char>>,
    heading: Seq<char>,
    message: Seq<Seq<char>>,
    slots: Seq<Slot>,
    after: Seq<Seq<char>>,
    width: int,
)
    ensures
        with_body(before, heading, message, slots, after, width) == before + (seq![heading] + (
        message + (laid_out(slots, width) + after))),
{
    assert(with_body(before, heading, message, slots, after, width) =~= before + (seq![heading] + (
    message + (laid_out(slots, width) + after))));
}

// ---------------------------------------------------------------------------
// A text with a diagnostic in it.
// ---------------------------------------------------------------------------

/// What is left of a diagnostic has its places under a gutter of its width.
proof fn lemma_slots_stand(
    rules: Rules,
    fixture: Seq<char>,
    one: Diagnostic,
    other: Diagnostic,
    one_width: int,
    other_width: int,
)
    requires
        is_settled(rules),
        is_unnumbered(fixture),
        is_rendering(rules, fixture, one, one_width),
        is_rendering(rules, fixture, other, other_width),
        all_same_but_abroad(rules, fixture, one.pieces, other.pieces),
    ensures
        ({
            let slots = slots_of(rules, fixture, one.pieces);
            &&& stand_in(slots, one_width, other_width, None)
            &&& is_body(slots, one_width)
            &&& is_body(slots, other_width)
        }),
{
    let slots = slots_of(rules, fixture, one.pieces);
    lemma_same_slots(rules, fixture, one.pieces, other.pieces);
    assert forall|i: int| 0 <= i < slots.len() implies stands_in(
        #[trigger] slots[i],
        one_width,
        other_width,
        note_at(slots, None, i as nat),
    ) by {
        lemma_slot_comes(rules, fixture, one, one_width, i);
        lemma_slot_comes(rules, fixture, other, other_width, i);
    }
    assert forall|i: int| 0 <= i < slots.len() implies fits(
        #[trigger] slots[i],
        one_width,
        note_at(slots, None, i as nat),
    ) && fits(slots[i], other_width, note_at(slots, None, i as nat)) by {
        assert(stands_in(slots[i], one_width, other_width, note_at(slots, None, i as nat)));
    }
    lemma_span_is_first(rules, fixture, one.pieces);
}

/// What is beneath a message begins with the diagnostic's own span header.
proof fn lemma_span_is_first(rules: Rules, fixture: Seq<char>, pieces: Seq<Piece>)
    requires
        has_span_first(rules, fixture, pieces),
    ensures
        ({
            let slots = slots_of(rules, fixture, pieces);
            slots[0] is Placed && starts_with(slots[0]->Placed_1, "--> "@)
        }),
{
    let piece = pieces[0];
    let out = read(rules, fixture, piece->header);
    lemma_span_placed(out, position_text(piece->line, piece->column), 1);
    assert(slots_of(rules, fixture, pieces)[0] == slot_of(
        rules,
        fixture,
        piece,
        abroad_at(rules, fixture, pieces, 0),
    ));
}

/// What one line comes to has its place.
proof fn lemma_slot_comes(rules: Rules, fixture: Seq<char>, d: Diagnostic, width: int, i: int)
    requires
        is_settled(rules),
        is_unnumbered(fixture),
        is_rendering(rules, fixture, d, width),
        0 <= i < d.pieces.len(),
    ensures
        ({
            let slots = slots_of(rules, fixture, d.pieces);
            let note = note_at(slots, None, i as nat);
            fits(slots[i], width, note) && sits(slots[i], width) && is_listed(slots[i], note)
        }),
{
    let at = abroad_at(rules, fixture, d.pieces, i as nat);
    let note = note_at(slots_of(rules, fixture, d.pieces), None, i as nat);
    assert(can_stand(rules, fixture, d.pieces[i], at, note));
    lemma_comes_to_slot(rules, fixture, d.pieces[i], width, at, note);
}

/// Diagnostics that differ only in where in other files they point leave the same, and
/// point at other files in the same rows.
proof fn lemma_same_slots(
    rules: Rules,
    fixture: Seq<char>,
    one: Seq<Piece>,
    other: Seq<Piece>,
)
    requires
        all_same_but_abroad(rules, fixture, one, other),
    ensures
        slots_of(rules, fixture, one) == slots_of(rules, fixture, other),
        abroad_at(rules, fixture, one, one.len()) == abroad_at(
            rules,
            fixture,
            other,
            other.len(),
        ),
{
    assert forall|i: int| 0 <= i <= one.len() implies #[trigger] abroad_at(
        rules,
        fixture,
        one,
        i as nat,
    ) == abroad_at(rules, fixture, other, i as nat) by {
        lemma_same_abroad(rules, fixture, one, other, i as nat);
    }
    let a = slots_of(rules, fixture, one);
    let b = slots_of(rules, fixture, other);
    assert forall|i: int| 0 <= i < a.len() implies a[i] == b[i] by {
        let at = abroad_at(rules, fixture, one, i as nat);
        assert(same_but_abroad(rules, fixture, one[i], other[i], at));
    }
    assert(a =~= b);
    lemma_same_abroad(rules, fixture, one, other, one.len());
}

proof fn lemma_same_abroad(
    rules: Rules,
    fixture: Seq<char>,
    one: Seq<Piece>,
    other: Seq<Piece>,
    i: nat,
)
    requires
        all_same_but_abroad(rules, fixture, one, other),
        i <= one.len(),
    ensures
        abroad_at(rules, fixture, one, i) == abroad_at(rules, fixture, other, i),
    decreases i,
{
    if i > 0 {
        lemma_same_abroad(rules, fixture, one, other, (i - 1) as nat);
        let at = abroad_at(rules, fixture, one, (i - 1) as nat);
        assert(same_but_abroad(rules, fixture, one[i - 1], other[i - 1], at));
    }
}

/// Whether the lines of a text are these, but for white space at their ends.
pub open spec fn reads_as(text: Seq<char>, rows: Seq<Seq<char>>) -> bool {
    lines(text).len() == rows.len() && forall|i: int|
        0 <= i < rows.len() ==> trim_end(#[trigger] lines(text)[i]) == trim_end(rows[i])
}

/// A heading is read whatever came before it, and no snippet goes on past it.
proof fn lemma_heading(rules: Rules, fixture: Seq<char>, heading: Seq<char>, foreign: bool)
    requires
        trim_end(heading) == heading,
        heads(heading),
        heads(read(rules, fixture, heading)),
    ensures
        line_normalized(rules, fixture, heading, foreign) == (
            read(rules, fixture, heading),
            false,
        ),
{
    lemma_letter(heading);
    lemma_letter(read(rules, fixture, heading));
    lemma_flush_piece(rules, fixture, heading, foreign);
}

/// What normalizing makes of the lines of a diagnostic and of those after it.
proof fn lemma_printed(
    rules: Rules,
    fixture: Seq<char>,
    d: Diagnostic,
    after: Seq<Seq<char>>,
    width: int,
    foreign: bool,
)
    requires
        is_settled(rules),
        is_unnumbered(fixture),
        is_rendering(rules, fixture, d, width),
    ensures
        lines_normalized(rules, fixture, printed(d, width) + after, foreign) == seq![
            read(rules, fixture, d.heading),
        ] + (lines_normalized(rules, fixture, d.message, false) + (laid_out(
            slots_of(rules, fixture, d.pieces),
            width,
        ) + lines_normalized(
            rules,
            fixture,
            after,
            abroad_at(rules, fixture, d.pieces, d.pieces.len()),
        ))),
{
    let rows = shown_all(d.pieces, width);
    let rest = d.message + (rows + after);
    let all = printed(d, width) + after;
    let inner = foreign_after(rules, fixture, d.message, false);
    assert(all =~= seq![d.heading] + rest);
    assert(all[0] == d.heading);
    assert(all.drop_first() =~= rest);
    lemma_heading(rules, fixture, d.heading, foreign);
    lemma_normalized_in_turn(rules, fixture, d.message, rows + after, false);
    lemma_normalized_in_turn(rules, fixture, rows, after, inner);
    lemma_pieces(rules, fixture, d.pieces, width, inner);
}

/// A text with a diagnostic in it comes to what is left of the diagnostic, between what
/// is left of the lines around it.
proof fn lemma_text_with_pieces(
    rules: Rules,
    fixture: Seq<char>,
    before: Seq<Seq<char>>,
    d: Diagnostic,
    after: Seq<Seq<char>>,
    text: Seq<char>,
    width: int,
)
    requires
        is_settled(rules),
        is_unnumbered(fixture),
        is_rendering(rules, fixture, d, width),
        reads_as(text, before + (printed(d, width) + after)),
    ensures
        lines_normalized(rules, fixture, lines(text), false) == with_body(
            lines_normalized(rules, fixture, before, false),
            read(rules, fixture, d.heading),
            lines_normalized(rules, fixture, d.message, false),
            slots_of(rules, fixture, d.pieces),
            lines_normalized(
                rules,
                fixture,
                after,
                abroad_at(rules, fixture, d.pieces, d.pieces.len()),
            ),
            width,
        ),
{
    let all = before + (printed(d, width) + after);
    let foreign = foreign_after(rules, fixture, before, false);
    assert forall|i: int| 0 <= i < lines(text).len() implies trim_end(#[trigger] lines(text)[i])
        == trim_end(all[i]) by {}
    law_trailing_space_makes_no_difference(rules, fixture, lines(text), all, false);
    lemma_normalized_in_turn(rules, fixture, before, printed(d, width) + after, false);
    lemma_printed(rules, fixture, d, after, width, foreign);
    lemma_put_together(
        lines_normalized(rules, fixture, before, false),
        read(rules, fixture, d.heading),
        lines_normalized(rules, fixture, d.message, false),
        slots_of(rules, fixture, d.pieces),
        lines_normalized(
            rules,
            fixture,
            after,
            abroad_at(rules, fixture, d.pieces, d.pieces.len()),
        ),
        width,
    );
}

/// What is left of a diagnostic comes out the same under two widths of its gutter.
proof fn lemma_aligned(
    before: Seq<Seq<char>>,
    heading: Seq<char>,
    message: Seq<Seq<char>>,
    slots: Seq<Slot>,
    after: Seq<Seq<char>>,
    one: int,
    other: int,
)
    requires
        1 <= one,
        1 <= other,
        heads(heading),
        begins(before, heading),
        is_message(message),
        stand_in(slots, one, other, None),
        is_body(slots, one),
        is_body(slots, other),
        after.len() == 0 || after[0].len() == 0,
        is_holdable(truncated(with_body(before, heading, message, slots, after, one))),
        is_holdable(truncated(with_body(before, heading, message, slots, after, other))),
    ensures
        realign(truncated(with_body(before, heading, message, slots, after, one))) == realign(
            truncated(with_body(before, heading, message, slots, after, other)),
        ),
{
    let (front, middle, body, back) = lemma_truncated_body(
        before,
        heading,
        message,
        slots,
        after,
        one,
        other,
    );
    law_a_diagnostic_reads_the_same_under_any_width(
        front,
        heading,
        middle,
        body,
        back,
        one,
        other,
    );
}

/// A blank line stays one.
proof fn lemma_blank(rules: Rules, fixture: Seq<char>, foreign: bool)
    requires
        is_settled(rules),
    ensures
        line_normalized(rules, fixture, seq![], foreign).0 == Seq::<char>::empty(),
{
    reveal(line_normalized);
    reveal_strlit("--> ");
    reveal_strlit("::: ");
    reveal_strlit("and ");
    let blank = Seq::<char>::empty();
    assert(trim_end(blank) =~= blank);
    assert(trim_start(blank) =~= blank);
    lemma_drawn_stays(rules, blank, fixture);
}

/// What is left of the lines after a diagnostic begins with a blank one, as they do.
proof fn lemma_after(rules: Rules, fixture: Seq<char>, after: Seq<Seq<char>>, foreign: bool)
    requires
        is_settled(rules),
        after.len() == 0 || after[0].len() == 0,
    ensures
        ({
            let back = lines_normalized(rules, fixture, after, foreign);
            back.len() == 0 || back[0].len() == 0
        }),
{
    if after.len() > 0 {
        lemma_blank(rules, fixture, foreign);
        assert(after[0] =~= seq![]);
    }
}

/// What is left of the lines before a diagnostic ends in a blank one, if they do.
proof fn lemma_before(rules: Rules, fixture: Seq<char>, before: Seq<Seq<char>>, foreign: bool)
    requires
        is_settled(rules),
        ends_apart(before),
    ensures
        ends_apart(lines_normalized(rules, fixture, before, foreign)),
{
    if before.len() > 0 {
        let most = before.drop_last();
        let next = foreign_after(rules, fixture, most, foreign);
        let last = seq![before.last()];
        assert(most + last =~= before);
        lemma_normalized_in_turn(rules, fixture, most, last, foreign);
        lemma_blank(rules, fixture, next);
        assert(last[0] =~= seq![]);
        assert(last.drop_first() =~= seq![]);
        let (line, then) = line_normalized(rules, fixture, last[0], next);
        let out = lines_normalized(rules, fixture, last, next);
        assert(lines_normalized(rules, fixture, last.drop_first(), then) =~= seq![]);
        assert(out =~= seq![line]);
    }
}

/// Where another file puts its code makes no difference.
///
/// Two texts that hold one diagnostic, the same but for the positions of the span headers
/// that point at other files, the line numbers of those files' snippets, and the width of
/// the gutter that the widest number makes, and that are the same before and after it,
/// normalize to the same golden. The diagnostic is of a heading, which is a `note:` or a
/// `help:` too where it begins a message of its own, any further lines of its message,
/// span headers, gutter and elided rows, attached notes with the lines and the lists that
/// hang off them, and sub-diagnostics at the margin.
///
/// No place that the rules rewrite begins with a space or a digit or holds a colon with a
/// digit behind it: with a dependency at `/a:5`, a span into line 5 of `/a` reads as one
/// into the dependency. And a row of another file's snippet has a `|` behind its number:
/// with the number gone, a suggested `+` is no gutter row any more, and its block is left
/// as wide as it was.
pub proof fn law_where_another_file_puts_its_code_makes_no_difference(
    rules: Rules,
    fixture: Seq<char>,
    before: Seq<Seq<char>>,
    one: Diagnostic,
    other: Diagnostic,
    after: Seq<Seq<char>>,
    a: Seq<char>,
    b: Seq<char>,
    one_width: int,
    other_width: int,
)
    requires
        is_settled(rules),
        is_unnumbered(fixture),
        is_rendering(rules, fixture, one, one_width),
        is_rendering(rules, fixture, other, other_width),
        one.heading == other.heading,
        one.message == other.message,
        all_same_but_abroad(rules, fixture, one.pieces, other.pieces),
        begins(before, read(rules, fixture, one.heading)),
        after.len() == 0 || after[0].len() == 0,
        reads_as(a, before + (printed(one, one_width) + after)),
        reads_as(b, before + (printed(other, other_width) + after)),
        is_holdable(truncated(lines_normalized(rules, fixture, lines(a), false))),
        is_holdable(truncated(lines_normalized(rules, fixture, lines(b), false))),
    ensures
        normalized(rules, a, fixture) == normalized(rules, b, fixture),
{
    let last = abroad_at(rules, fixture, one.pieces, one.pieces.len());
    lemma_same_slots(rules, fixture, one.pieces, other.pieces);
    lemma_text_with_pieces(rules, fixture, before, one, after, a, one_width);
    lemma_text_with_pieces(rules, fixture, before, other, after, b, other_width);
    lemma_slots_stand(rules, fixture, one, other, one_width, other_width);
    lemma_after(rules, fixture, after, last);
    if ends_apart(before) {
        lemma_before(rules, fixture, before, false);
    }
    lemma_aligned(
        lines_normalized(rules, fixture, before, false),
        read(rules, fixture, one.heading),
        lines_normalized(rules, fixture, one.message, false),
        slots_of(rules, fixture, one.pieces),
        lines_normalized(rules, fixture, after, last),
        one_width,
        other_width,
    );
    reveal(normalized);
}

} // verus!

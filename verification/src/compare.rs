//! Comparison modes, and the toolchain-churn problem.
//!
//! `.stderr` goldens break whenever rustc reflows a diagnostic. That is inherent
//! to golden-matching rendered text, but there is a cheaper mode.
//!
//! Dropping the goldens altogether is not on the table. Comparing exit status
//! alone passes a fixture that fails for a typo in the fixture, and comparing
//! error codes alone asserts nothing at all about `compile_error!`, which carries
//! none. Both turn a green suite into no evidence.
use crate::text::{
    after, chars_of, count_leading, has_prefix, is_line, is_word, leading, lemma_leading,
    lemma_leading_is, lemma_lines_hold_no_feed, lemma_lines_of_terminated, lemma_trailing,
    lemma_trailing_is, lines, push_chars, push_text, split_lines, starts_with, string_of,
    terminated, texts, trim, trim_end, trim_start, trimmed, trimmed_end, trimmed_start, Class,
};
use vstd::prelude::*;

verus! {

/// How a fixture's diagnostics are compared against its golden.
#[derive(Debug, Clone, Copy, PartialEq, Eq, Hash, Structural)]
pub enum Mode {
    /// Byte-for-byte after normalization. Maximum information, maximum churn.
    ///
    /// The default, because its failure mode is the loud one: an `Exact` suite that
    /// needs re-blessing after a toolchain upgrade says so; a suite that quietly
    /// asserts less than you think does not.
    ///
    /// Choose this when the rendering *is* the product: a `#[diagnostic::
    /// on_unimplemented]` message, a `= help:` suggestion you wrote on purpose, a
    /// span you placed deliberately. [`Brief`](Mode::Brief) drops all three.
    Exact,
    /// Compare each diagnostic's code, primary message and location, and nothing
    /// else.
    ///
    /// Drops the source snippet, the underline art, and the `= note:` / `= help:`
    /// lines -- exactly the parts a rustc release reflows -- whether or not a span
    /// header stands above them. A message rustc printed over more than one line
    /// survives whole: those lines are split where their author split them, not where
    /// a rustc release chose to.
    ///
    /// This is not "error codes only". The primary message is kept in full:
    /// `compile_error!` carries no error code at all, and comparing codes alone
    /// would pass every such fixture vacuously.
    ///
    /// The filter is applied to *both* sides of the comparison, so an `Exact`
    /// golden also passes in `Brief` mode.
    Brief,
}

impl Default for Mode {
    fn default() -> (r: Self)
        ensures
            r == Mode::Exact,
    {
        Mode::Exact
    }
}

impl Mode {
    /// The mode's name.
    pub open spec fn name(self) -> Seq<char> {
        match self {
            Mode::Exact => "Exact"@,
            Mode::Brief => "Brief"@,
        }
    }

    /// The mode's name.
    pub fn to_string(&self) -> (r: String)
        ensures
            r@ == self.name(),
    {
        match self {
            Mode::Exact => "Exact".to_owned(),
            Mode::Brief => "Brief".to_owned(),
        }
    }
}

/// Whether a line is set in from the margin.
pub open spec fn is_indented(line: Seq<char>) -> bool {
    line.len() > 0 && (line[0] == ' ' || line[0] == '\t')
}

/// Whether a line's text is that of a row beneath a message: the bare gutter, a row of
/// the snippet, or an attached `= note:` or `= help:`.
pub open spec fn is_row(body: Seq<char>) -> bool {
    body == "|"@ || starts_with(body, "| "@) || starts_with(body, "= "@)
}

/// How many characters a primary message has in front of the colon that ends its level
/// and code.
pub open spec fn level_len(line: Seq<char>) -> nat {
    leading(trim_end(line), Class::ColonFree)
}

/// Whether an indented line is the rest of a message whose level and code take `level`
/// characters. rustc sets the rest of a message in by the width of the level, the colon
/// and the space before the message; a row beneath the message is set in by less.
pub open spec fn goes_on(line: Seq<char>, level: nat) -> bool {
    let lead = line.len() - trim_start(line).len();
    is_indented(line) && trim(line).len() > 0 && (lead >= level + 2 || !is_row(trim(line)))
}

/// What `Brief` keeps of one line, and the level of the message that the line after it
/// may still be part of. `message` is that for this line.
pub open spec fn brief_line(line: Seq<char>, message: Option<nat>) -> (
    Option<Seq<char>>,
    Option<nat>,
) {
    let body = trim_start(line);
    if starts_with(body, "--> "@) {
        // A span header. The gutter in front of it tracks the largest line number
        // in the snippet, so it is trimmed.
        (Some("--> "@ + trim(body.skip("--> "@.len() as int))), None)
    } else if !is_indented(line) && (starts_with(line, "error"@) || starts_with(line, "warning"@)) {
        // A primary message, at the margin only: an indented `error:` is inside a
        // snippet.
        (Some(trim_end(line)), Some(level_len(line)))
    } else if message is Some && goes_on(line, message->0) {
        // The rest of a message that carries a newline.
        (Some(trim_end(line)), message)
    } else {
        (None, None)
    }
}

/// The lines `Brief` keeps.
pub open spec fn brief_lines(list: Seq<Seq<char>>, message: Option<nat>) -> Seq<Seq<char>>
    decreases list.len(),
{
    if list.len() == 0 {
        seq![]
    } else {
        let (kept, next) = brief_line(list[0], message);
        let rest = brief_lines(list.drop_first(), next);
        match kept {
            Some(line) => seq![line] + rest,
            None => rest,
        }
    }
}

/// What `Brief` compares of a text.
pub open spec fn brief_text(text: Seq<char>) -> Seq<char> {
    terminated(brief_lines(lines(text), None))
}

/// What a mode compares of a text.
pub open spec fn filtered(text: Seq<char>, mode: Mode) -> Seq<char> {
    match mode {
        Mode::Exact => text,
        Mode::Brief => brief_text(text),
    }
}

/// The level of an open message, as a value to reason about.
spec fn level_in(message: Option<usize>) -> Option<nat> {
    match message {
        Some(level) => Some(level as nat),
        None => None,
    }
}

/// Reduce `text` to what `mode` compares.
pub fn filter(text: &str, mode: Mode) -> (r: String)
    ensures
        r@ == filtered(text@, mode),
{
    match mode {
        Mode::Exact => text.to_owned(),
        Mode::Brief => brief(text),
    }
}

/// Whether a line's text is that of a row beneath a message.
fn row(body: &[char]) -> (r: bool)
    ensures
        r == is_row(body@),
{
    is_word(body, "|") || has_prefix(body, "| ") || has_prefix(body, "= ")
}

/// Whether an indented line is the rest of a message.
fn continues(line: &[char], level: usize) -> (r: bool)
    ensures
        r == goes_on(line@, level as nat),
{
    proof {
        lemma_leading(line@, Class::Whitespace);
    }
    let lead: usize = line.len() - trimmed_start(line).len();
    let body = trimmed(line);
    let indented: bool = line.len() > 0 && (line[0] == ' ' || line[0] == '\t');
    indented && body.len() > 0 && ((lead >= level && lead - level >= 2) || !row(body))
}

/// Reduce `text` to its messages and span headers.
pub fn brief(text: &str) -> (r: String)
    ensures
        r@ == brief_text(text@),
{
    let chars = chars_of(text);
    let list = split_lines(chars.as_slice());
    let ghost all = texts(list@);
    let mut out: Vec<char> = Vec::new();
    // The level of the message that the last line kept was part of, so an indented
    // line arriving now can be the rest of it rather than the top of a snippet.
    let mut message: Option<usize> = None;
    let mut i: usize = 0;
    proof {
        reveal_strlit("--> ");
        assert(all.skip(0) =~= all);
    }
    while i < list.len()
        invariant
            i <= list@.len(),
            all == texts(list@),
            "--> "@.len() == 4,
            out@ + terminated(brief_lines(all.skip(i as int), level_in(message))) =~= terminated(
                brief_lines(all, None),
            ),
        decreases list@.len() - i,
    {
        let line = list[i].as_slice();
        let body = trimmed_start(line);
        let indented: bool = line.len() > 0 && (line[0] == ' ' || line[0] == '\t');
        let ghost rest = all.skip(i as int);
        let ghost done = out@;
        let ghost (kept, next) = brief_line(line@, level_in(message));
        proof {
            assert(rest[0] == line@);
            assert(rest.drop_first() =~= all.skip(i + 1));
            let tail = brief_lines(rest.drop_first(), next);
            match kept {
                Some(k) => {
                    assert((seq![k] + tail).drop_first() =~= tail);
                },
                None => {},
            }
        }
        if has_prefix(body, "--> ") {
            push_text(&mut out, "--> ");
            push_chars(&mut out, trimmed(after(body, 4)));
            out.push('\n');
            message = None;
        } else if !indented && (has_prefix(line, "error") || has_prefix(line, "warning")) {
            let kept_line = trimmed_end(line);
            push_chars(&mut out, kept_line);
            out.push('\n');
            message = Some(count_leading(kept_line, Class::ColonFree));
        } else {
            message = match message {
                Some(level) => if continues(line, level) {
                    push_chars(&mut out, trimmed_end(line));
                    out.push('\n');
                    Some(level)
                } else {
                    None
                },
                None => None,
            };
        }
        proof {
            assert(level_in(message) == next);
            match kept {
                Some(k) => {
                    assert(out@ =~= done + k + seq!['\n']);
                },
                None => {
                    assert(out@ =~= done);
                },
            }
        }
        i += 1;
    }
    assert(all.skip(i as int) =~= seq![]);
    string_of(out.as_slice())
}

// ---------------------------------------------------------------------------
// What filtering promises.
// ---------------------------------------------------------------------------

/// A text without its trailing white space has none left.
proof fn lemma_trim_end_settles(s: Seq<char>)
    ensures
        trim_end(trim_end(s)) == trim_end(s),
        trim_end(s).len() <= s.len(),
        trim_end(s).len() > 0 ==> !Class::Whitespace.has(trim_end(s).last()),
        forall|i: int| 0 <= i < trim_end(s).len() ==> trim_end(s)[i] == s[i],
        forall|i: int| trim_end(s).len() <= i < s.len() ==> Class::Whitespace.has(s[i]),
{
    lemma_trailing(s, Class::Whitespace);
    let t = trim_end(s);
    lemma_trailing_is(t, Class::Whitespace, 0);
    assert(t.take(t.len() as int) =~= t);
}

/// Text that begins with something other than white space is not trimmed there.
proof fn lemma_trim_start_keeps(s: Seq<char>)
    requires
        s.len() > 0,
        !Class::Whitespace.has(s[0]),
    ensures
        trim_start(s) == s,
{
    lemma_leading_is(s, Class::Whitespace, 0);
    assert(s.skip(0) =~= s);
}

/// What is kept of a line is kept of it again, in the same state, and in any where it was
/// kept outside a message.
#[verifier::spinoff_prover]
proof fn lemma_brief_line_again(line: Seq<char>, first: Option<nat>, second: Option<nat>)
    requires
        first is None || first == second,
        !line.contains('\n'),
        brief_line(line, first).0 is Some,
    ensures
        brief_line(line, first) == brief_line(brief_line(line, first).0->0, second),
        is_line(brief_line(line, first).0->0),
{
    reveal_strlit("--> ");
    reveal_strlit("error");
    reveal_strlit("warning");
    let body = trim_start(line);
    let kept = brief_line(line, first).0->0;
    lemma_leading(line, Class::Whitespace);
    if starts_with(body, "--> "@) {
        let span = body.skip(4);
        let inner = trim(span);
        lemma_trim_end_settles(trim_start(span));
        lemma_leading(span, Class::Whitespace);
        assert(kept =~= "--> "@ + inner);
        assert(kept[0] == '-');
        lemma_trim_start_keeps(kept);
        assert(kept.subrange(0, 4) =~= "--> "@);
        assert(kept.skip(4) =~= inner);
        if inner.len() > 0 {
            assert(inner[0] == trim_start(span)[0]);
            lemma_trim_start_keeps(inner);
        } else {
            assert(trim_start(inner) =~= inner);
        }
        lemma_trim_end_settles(inner);
        assert(trim(inner) =~= inner);
        assert forall|i: int| 0 <= i < kept.len() implies kept[i] != '\n' by {
            if i >= 4 {
                let k = leading(line, Class::Whitespace) + 4 + leading(span, Class::Whitespace) + (i
                    - 4);
                assert(kept[i] == inner[i - 4]);
                assert(inner[i - 4] == trim_start(span)[i - 4]);
                assert(kept[i] == line[k]);
                assert(line.contains(line[k]));
            }
        }
    } else {
        lemma_trim_end_settles(line);
        assert forall|i: int| 0 <= i < kept.len() implies kept[i] != '\n' by {
            assert(kept[i] == line[i]);
            assert(line.contains(line[i]));
        }
        if !is_indented(line) && (starts_with(line, "error"@) || starts_with(line, "warning"@)) {
            let word = if starts_with(line, "error"@) {
                "error"@
            } else {
                "warning"@
            };
            assert(line.subrange(0, word.len() as int)[word.len() - 1] == word.last());
            assert(line[word.len() - 1] == word.last());
            assert(kept.len() >= word.len()) by {
                if kept.len() < word.len() {
                    assert(Class::Whitespace.has(line[word.len() - 1]));
                }
            }
            assert(kept.subrange(0, word.len() as int) =~= word);
            assert(kept[0] == word[0]);
            lemma_trim_start_keeps(kept);
            assert(!starts_with(kept, "--> "@)) by {
                if starts_with(kept, "--> "@) {
                    assert(kept.subrange(0, 4)[0] == '-');
                }
            }
        } else {
            let lead = leading(line, Class::Whitespace) as int;
            assert(body[0] == line[lead]);
            assert(lead < kept.len()) by {
                if lead >= kept.len() {
                    assert(Class::Whitespace.has(line[lead]));
                }
            }
            assert forall|i: int| 0 <= i < lead implies Class::Whitespace.has(kept[i]) by {
                assert(kept[i] == line[i]);
            }
            lemma_leading_is(kept, Class::Whitespace, lead as nat);
            let again = trim_start(kept);
            assert forall|i: int| 0 <= i < again.len() implies again[i] == body[i] by {
                assert(again[i] == kept[lead + i]);
            }
            assert(!starts_with(again, "--> "@)) by {
                if starts_with(again, "--> "@) {
                    assert(body.subrange(0, 4) =~= again.subrange(0, 4));
                }
            }
            assert(trim(kept) == trim(line)) by {
                let gone = line.len() - kept.len();
                assert forall|i: int| body.len() - gone <= i < body.len() implies
                    Class::Whitespace.has(body[i]) by {
                    assert(body[i] == line[lead + i]);
                }
                assert(body[body.len() - gone - 1] == kept.last());
                lemma_trailing_is(body, Class::Whitespace, gone as nat);
                assert(trim_end(body) =~= again);
                assert(again.last() == kept.last());
                lemma_trailing_is(again, Class::Whitespace, 0);
                assert(trim_end(again) =~= again);
            }
            assert(kept[0] == line[0]);
        }
    }
}

/// The lines `Brief` keeps are kept again, whole.
proof fn lemma_brief_lines_again(
    list: Seq<Seq<char>>,
    first: Option<nat>,
    second: Option<nat>,
)
    requires
        first is None || first == second,
        forall|i: int| 0 <= i < list.len() ==> !(#[trigger] list[i]).contains('\n'),
    ensures
        brief_lines(brief_lines(list, first), second) == brief_lines(list, first),
        forall|i: int|
            0 <= i < brief_lines(list, first).len() ==> is_line(
                #[trigger] brief_lines(list, first)[i],
            ),
    decreases list.len(),
{
    if list.len() > 0 {
        let rest = list.drop_first();
        let (kept, next) = brief_line(list[0], first);
        assert forall|i: int| 0 <= i < rest.len() implies !(#[trigger] rest[i]).contains('\n') by {
            assert(rest[i] == list[i + 1]);
        }
        match kept {
            Some(line) => {
                lemma_brief_line_again(list[0], first, second);
                lemma_brief_lines_again(rest, next, next);
                let all = brief_lines(list, first);
                assert(all.drop_first() =~= brief_lines(rest, next));
                assert(all[0] == line);
                assert(brief_lines(all, second) =~= all);
            },
            None => {
                lemma_brief_lines_again(rest, next, second);
            },
        }
    }
}

/// Filtering twice is filtering once, so both sides of a comparison can be
/// filtered whatever they were filtered with before.
pub proof fn law_filtering_is_idempotent(text: Seq<char>, mode: Mode)
    ensures
        filtered(filtered(text, mode), mode) == filtered(text, mode),
{
    let list = lines(text);
    lemma_lines_hold_no_feed(text);
    lemma_brief_lines_again(list, None, None);
    lemma_lines_of_terminated(brief_lines(list, None));
}

/// A golden that holds the whole rendering passes in either mode, and so does one
/// that holds what the mode compares.
pub proof fn law_exact_golden_passes_in_either_mode(text: Seq<char>, blessed: Mode, mode: Mode)
    requires
        blessed == Mode::Exact || blessed == mode,
    ensures
        filtered(filtered(text, blessed), mode) == filtered(text, mode),
{
    law_filtering_is_idempotent(text, mode);
}

/// How far a span header is set in makes no difference to `Brief`: a snippet whose
/// line numbers grow wider does not churn a golden.
pub proof fn law_brief_ignores_gutter_width(
    before: Seq<Seq<char>>,
    narrow: Seq<char>,
    wide: Seq<char>,
    after: Seq<Seq<char>>,
    message: Option<nat>,
)
    requires
        starts_with(trim_start(narrow), "--> "@),
        trim_start(narrow) == trim_start(wide),
    ensures
        brief_lines(before + seq![narrow] + after, message) == brief_lines(
            before + seq![wide] + after,
            message,
        ),
    decreases before.len(),
{
    let left = before + seq![narrow] + after;
    let right = before + seq![wide] + after;
    if before.len() == 0 {
        assert(left.drop_first() =~= after);
        assert(right.drop_first() =~= after);
    } else {
        let rest = before.drop_first();
        let next = brief_line(before[0], message).1;
        law_brief_ignores_gutter_width(rest, narrow, wide, after, next);
        assert(left.drop_first() =~= rest + seq![narrow] + after);
        assert(right.drop_first() =~= rest + seq![wide] + after);
    }
}

/// A row beneath a message is dropped and ends the message, whether or not a span header
/// stood above it: the gutter, the snippet, and what is attached with `= note:` or
/// `= help:`. It is told from the message's own text by how far it is set in.
pub proof fn law_rows_beneath_a_message_are_dropped(row: Seq<char>, message: Option<nat>)
    requires
        is_row(trim(row)),
        message matches Some(level) ==> row.len() - trim_start(row).len() < level + 2,
    ensures
        brief_line(row, message) == (None::<Seq<char>>, None::<nat>),
{
    reveal_strlit("|");
    reveal_strlit("| ");
    reveal_strlit("= ");
    reveal_strlit("--> ");
    reveal_strlit("error");
    reveal_strlit("warning");
    let body = trim_start(row);
    let text = trim(row);
    lemma_trim_end_settles(body);
    lemma_leading(row, Class::Whitespace);
    assert(text[0] == '|' || text[0] == '=') by {
        if starts_with(text, "| "@) {
            assert(text.subrange(0, 2)[0] == '|');
        } else if starts_with(text, "= "@) {
            assert(text.subrange(0, 2)[0] == '=');
        }
    }
    assert(body[0] == text[0]);
    if starts_with(body, "--> "@) {
        assert(body.subrange(0, 4)[0] == '-');
    }
    if starts_with(row, "error"@) {
        assert(row.subrange(0, 5)[0] == 'e');
    }
    if starts_with(row, "warning"@) {
        assert(row.subrange(0, 7)[0] == 'w');
    }
}

/// `Exact` compares all of a text.
pub proof fn law_exact_compares_everything(text: Seq<char>)
    ensures
        filtered(text, Mode::Exact) == text,
{
}

/// What is kept of lines, given the message open before them, is kept in front of what is
/// kept of those after, given the message they leave open.
proof fn lemma_brief_in_turn(
    first: Seq<Seq<char>>,
    second: Seq<Seq<char>>,
    message: Option<nat>,
) -> (open: Option<nat>)
    ensures
        brief_lines(first + second, message) == brief_lines(first, message) + brief_lines(
            second,
            open,
        ),
        forall|other: Seq<Seq<char>>| #[trigger]
            brief_lines(first + other, message) == brief_lines(first, message) + brief_lines(
                other,
                open,
            ),
    decreases first.len(),
{
    if first.len() == 0 {
        assert forall|other: Seq<Seq<char>>| #[trigger] brief_lines(first + other, message)
            == brief_lines(first, message) + brief_lines(other, message) by {
            assert(first + other =~= other);
            assert(brief_lines(first, message) + brief_lines(other, message) =~= brief_lines(
                other,
                message,
            ));
        }
        message
    } else {
        let rest = first.drop_first();
        let (kept, next) = brief_line(first[0], message);
        let open = lemma_brief_in_turn(rest, second, next);
        assert forall|other: Seq<Seq<char>>| #[trigger] brief_lines(first + other, message)
            == brief_lines(first, message) + brief_lines(other, open) by {
            let all = first + other;
            assert(all[0] == first[0]);
            assert(all.drop_first() =~= rest + other);
            assert(brief_lines(rest + other, next) == brief_lines(rest, next) + brief_lines(
                other,
                open,
            ));
            assert(brief_lines(all, message) =~= brief_lines(first, message) + brief_lines(
                other,
                open,
            ));
        }
        open
    }
}

/// Every span is kept, in its place, by its target alone: whatever the target is, however
/// far the header is set in and whatever stood before it. No message goes on past it.
pub proof fn law_every_span_is_kept(
    before: Seq<Seq<char>>,
    pad: Seq<char>,
    target: Seq<char>,
    after: Seq<Seq<char>>,
    message: Option<nat>,
)
    requires
        forall|i: int| 0 <= i < pad.len() ==> Class::Whitespace.has(pad[i]),
    ensures
        brief_lines(before + (seq![pad + ("--> "@ + target)] + after), message) == brief_lines(
            before,
            message,
        ) + (seq!["--> "@ + trim(target)] + brief_lines(after, None)),
{
    reveal_strlit("--> ");
    let line = pad + ("--> "@ + target);
    let body = "--> "@ + target;
    let open = lemma_brief_in_turn(before, seq![line] + after, message);
    assert forall|i: int| 0 <= i < pad.len() implies Class::Whitespace.has(line[i]) by {
        assert(line[i] == pad[i]);
    }
    assert(line[pad.len() as int] == '-');
    lemma_leading_is(line, Class::Whitespace, pad.len());
    assert(trim_start(line) =~= body);
    assert(body.subrange(0, 4) =~= "--> "@);
    assert(body.skip(4) =~= target);
    let rest = seq![line] + after;
    assert(rest[0] == line);
    assert(rest.drop_first() =~= after);
}

/// Every primary message is kept, in its place, whatever it says and whatever stood before
/// it, and what is set in beneath it may be the rest of it.
pub proof fn law_every_primary_message_is_kept(
    before: Seq<Seq<char>>,
    level: Seq<char>,
    text: Seq<char>,
    after: Seq<Seq<char>>,
    message: Option<nat>,
)
    requires
        starts_with(level, "error"@) || starts_with(level, "warning"@),
        forall|i: int| 0 <= i < level.len() ==> level[i] != ':',
    ensures
        brief_lines(before + (seq![level + seq![':'] + text] + after), message) == brief_lines(
            before,
            message,
        ) + (seq![trim_end(level + seq![':'] + text)] + brief_lines(after, Some(level.len()))),
{
    reveal_strlit("--> ");
    reveal_strlit("error");
    reveal_strlit("warning");
    let line = level + seq![':'] + text;
    let n = level.len() as int;
    let open = lemma_brief_in_turn(before, seq![line] + after, message);
    assert(level[0] == 'e' || level[0] == 'w') by {
        if starts_with(level, "error"@) {
            assert(level.subrange(0, 5)[0] == 'e');
        } else {
            assert(level.subrange(0, 7)[0] == 'w');
        }
    }
    assert(line[0] == level[0]);
    lemma_trim_start_keeps(line);
    if starts_with(line, "--> "@) {
        assert(line.subrange(0, 4)[0] == '-');
    }
    if starts_with(level, "error"@) {
        assert(line.subrange(0, 5) =~= level.subrange(0, 5));
    } else {
        assert(line.subrange(0, 7) =~= level.subrange(0, 7));
    }
    let kept = trim_end(line);
    lemma_trim_end_settles(line);
    assert(line[n] == ':');
    assert(kept.len() > n) by {
        if kept.len() <= n {
            assert(Class::Whitespace.has(line[n]));
        }
    }
    assert forall|i: int| 0 <= i < n implies Class::ColonFree.has(kept[i]) by {
        assert(kept[i] == line[i]);
        assert(line[i] == level[i]);
    }
    assert(kept[n] == ':');
    lemma_leading_is(kept, Class::ColonFree, level.len());
    let rest = seq![line] + after;
    assert(rest[0] == line);
    assert(rest.drop_first() =~= after);
}

/// A line that is set in beneath a message is the rest of it, unless it is a row that is
/// set in less than the message is.
pub proof fn law_the_rest_of_a_message_is_kept(
    lead: nat,
    text: Seq<char>,
    after: Seq<Seq<char>>,
    level: nat,
)
    requires
        lead > 0,
        text.len() > 0,
        !Class::Whitespace.has(text[0]),
        !Class::Whitespace.has(text.last()),
        !starts_with(text, "--> "@),
        lead >= level + 2 || !(text == "|"@ || starts_with(text, "| "@) || starts_with(
            text,
            "= "@,
        )),
    ensures
        ({
            let line = Seq::new(lead, |i: int| ' ') + text;
            brief_lines(seq![line] + after, Some(level)) == seq![line] + brief_lines(
                after,
                Some(level),
            )
        }),
{
    let line = Seq::new(lead, |i: int| ' ') + text;
    let rest = seq![line] + after;
    assert(line[lead as int] == text[0]);
    assert(line.last() == text.last());
    lemma_leading_is(line, Class::Whitespace, lead);
    assert(trim_start(line) =~= text);
    lemma_trailing_is(line, Class::Whitespace, 0);
    assert(trim_end(line) =~= line);
    lemma_trailing_is(text, Class::Whitespace, 0);
    assert(trim_end(text) =~= text);
    assert(rest[0] == line);
    assert(rest.drop_first() =~= after);
}

/// Nothing else is kept: a line at the margin that is neither a span header nor a primary
/// message goes, and ends the message above it; and outside a message so does whatever is
/// set in.
pub proof fn law_nothing_else_is_kept(
    before: Seq<Seq<char>>,
    line: Seq<char>,
    after: Seq<Seq<char>>,
    message: Option<nat>,
)
    requires
        !starts_with(trim_start(line), "--> "@),
        !starts_with(line, "error"@),
        !starts_with(line, "warning"@),
        line.len() == 0 || (line[0] != ' ' && line[0] != '\t') || (before.len() == 0 && message
            is None),
    ensures
        brief_lines(before + (seq![line] + after), message) == brief_lines(before, message)
            + brief_lines(after, None),
{
    let open = lemma_brief_in_turn(before, seq![line] + after, message);
    let rest = seq![line] + after;
    assert(rest[0] == line);
    assert(rest.drop_first() =~= after);
    if before.len() == 0 {
        assert(before + rest =~= rest);
        assert(brief_lines(before, message) =~= seq![]);
        assert(brief_lines(before, message) + brief_lines(rest, message) =~= brief_lines(
            rest,
            message,
        ));
        assert(brief_lines(before, message) + brief_lines(after, None) =~= brief_lines(
            after,
            None,
        ));
    }
}

/// Where the span headers in these lines point.
pub open spec fn spans_in(list: Seq<Seq<char>>) -> Seq<Seq<char>>
    decreases list.len(),
{
    if list.len() == 0 {
        seq![]
    } else {
        let body = trim_start(list[0]);
        (if starts_with(body, "--> "@) {
            seq![trim(body.skip(4))]
        } else {
            seq![]
        }) + spans_in(list.drop_first())
    }
}

/// The primary messages in these lines.
pub open spec fn primaries_in(list: Seq<Seq<char>>) -> Seq<Seq<char>>
    decreases list.len(),
{
    if list.len() == 0 {
        seq![]
    } else {
        (if starts_with(list[0], "error"@) || starts_with(list[0], "warning"@) {
            seq![trim_end(list[0])]
        } else {
            seq![]
        }) + primaries_in(list.drop_first())
    }
}

/// What is kept of a line points where the line does, and is a primary message if the line
/// is.
proof fn lemma_kept_says_the_same(line: Seq<char>, message: Option<nat>)
    requires
        !line.contains('\n'),
    ensures
        ({
            let kept = brief_line(line, message).0;
            let one = seq![line];
            match kept {
                Some(text) => spans_in(seq![text]) == spans_in(one) && primaries_in(seq![text])
                    == primaries_in(one),
                None => spans_in(one).len() == 0 && primaries_in(one).len() == 0,
            }
        }),
{
    reveal_strlit("--> ");
    reveal_strlit("error");
    reveal_strlit("warning");
    let one = seq![line];
    assert(one.drop_first() =~= seq![]);
    assert(spans_in(one.drop_first()) =~= seq![]);
    assert(primaries_in(one.drop_first()) =~= seq![]);
    let body = trim_start(line);
    lemma_leading(line, Class::Whitespace);
    if starts_with(line, "error"@) {
        assert(line.subrange(0, 5)[0] == 'e');
        lemma_trim_start_keeps(line);
    }
    if starts_with(line, "warning"@) {
        assert(line.subrange(0, 7)[0] == 'w');
        lemma_trim_start_keeps(line);
    }
    if starts_with(body, "--> "@) {
        assert(body.subrange(0, 4)[0] == '-');
    }
    if let Some(text) = brief_line(line, message).0 {
        let two = seq![text];
        assert(two.drop_first() =~= seq![]);
        lemma_brief_line_again(line, message, message);
        if starts_with(body, "--> "@) {
            let inner = trim(body.skip(4));
            assert(text =~= "--> "@ + inner);
            lemma_trim_start_keeps(text);
            assert(text.subrange(0, 4) =~= "--> "@);
            assert(text.skip(4) =~= inner);
            assert(brief_line(text, message).0 == Some(text));
            assert("--> "@ + trim(text.skip(4)) == text);
            assert(trim(inner) =~= text.skip(4)) by {
                assert(("--> "@ + trim(inner)).skip(4) =~= trim(inner));
            }
            if starts_with(text, "error"@) {
                assert(text.subrange(0, 5)[0] == 'e');
            }
            if starts_with(text, "warning"@) {
                assert(text.subrange(0, 7)[0] == 'w');
            }
        } else {
            lemma_trim_end_settles(line);
            lemma_prefix_starts(text, line);
        }
        assert(spans_in(two) =~= spans_in(one));
        assert(primaries_in(two) =~= primaries_in(one));
    }
}

/// What a text without its trailing white space begins with, the text begins with, and the
/// other way round for what ends without white space.
proof fn lemma_prefix_starts(text: Seq<char>, line: Seq<char>)
    requires
        text == trim_end(line),
        !starts_with(trim_start(line), "--> "@),
    ensures
        !starts_with(trim_start(text), "--> "@),
        starts_with(text, "error"@) == starts_with(line, "error"@),
        starts_with(text, "warning"@) == starts_with(line, "warning"@),
        trim_end(text) == text,
{
    reveal_strlit("--> ");
    reveal_strlit("error");
    reveal_strlit("warning");
    lemma_trim_end_settles(line);
    lemma_leading(line, Class::Whitespace);
    lemma_leading(text, Class::Whitespace);
    let short = trim_start(text);
    let long = trim_start(line);
    if starts_with(short, "--> "@) {
        let k = leading(text, Class::Whitespace);
        assert(short.subrange(0, 4)[0] == '-');
        assert(text[k as int] == '-');
        assert(line[k as int] == text[k as int]);
        lemma_leading_is(line, Class::Whitespace, k);
        assert(long.subrange(0, 4) =~= short.subrange(0, 4));
    }
    if starts_with(text, "error"@) {
        assert(line.subrange(0, 5) =~= text.subrange(0, 5));
    }
    if starts_with(line, "error"@) {
        assert(line.subrange(0, 5)[4] == 'r');
        if text.len() < 5 {
            assert(Class::Whitespace.has(line[4]));
        }
        assert(text.subrange(0, 5) =~= line.subrange(0, 5));
    }
    if starts_with(text, "warning"@) {
        assert(line.subrange(0, 7) =~= text.subrange(0, 7));
    }
    if starts_with(line, "warning"@) {
        assert(line.subrange(0, 7)[6] == 'g');
        if text.len() < 7 {
            assert(Class::Whitespace.has(line[6]));
        }
        assert(text.subrange(0, 7) =~= line.subrange(0, 7));
    }
}

proof fn lemma_kept_lines_say_the_same(list: Seq<Seq<char>>, message: Option<nat>)
    requires
        forall|i: int| 0 <= i < list.len() ==> !(#[trigger] list[i]).contains('\n'),
    ensures
        spans_in(brief_lines(list, message)) == spans_in(list),
        primaries_in(brief_lines(list, message)) == primaries_in(list),
    decreases list.len(),
{
    if list.len() > 0 {
        let rest = list.drop_first();
        let (kept, next) = brief_line(list[0], message);
        assert forall|i: int| 0 <= i < rest.len() implies !(#[trigger] rest[i]).contains('\n') by {
            assert(rest[i] == list[i + 1]);
        }
        lemma_kept_lines_say_the_same(rest, next);
        lemma_kept_says_the_same(list[0], message);
        lemma_said_in_turn(list[0], rest);
        if let Some(text) = kept {
            lemma_said_in_turn(text, brief_lines(rest, next));
            let all = brief_lines(list, message);
            assert(all =~= seq![text] + brief_lines(rest, next));
        }
        assert(list =~= seq![list[0]] + rest);
    }
}

proof fn lemma_said_in_turn(line: Seq<char>, rest: Seq<Seq<char>>)
    ensures
        spans_in(seq![line] + rest) == spans_in(seq![line]) + spans_in(rest),
        primaries_in(seq![line] + rest) == primaries_in(seq![line]) + primaries_in(rest),
{
    let all = seq![line] + rest;
    let one = seq![line];
    assert(all[0] == line);
    assert(all.drop_first() =~= rest);
    assert(one.drop_first() =~= seq![]);
    assert(spans_in(one.drop_first()) =~= seq![]);
    assert(primaries_in(one.drop_first()) =~= seq![]);
    assert(spans_in(all) =~= spans_in(one) + spans_in(rest));
    assert(primaries_in(all) =~= primaries_in(one) + primaries_in(rest));
}

/// `Brief` compares every span and every primary message of a text: a text and what is
/// left of it point at the same places and say the same messages, each as often and in
/// the same order.
pub proof fn law_brief_says_every_span_and_message(text: Seq<char>)
    ensures
        spans_in(lines(filtered(text, Mode::Brief))) == spans_in(lines(text)),
        primaries_in(lines(filtered(text, Mode::Brief))) == primaries_in(lines(text)),
{
    let list = lines(text);
    lemma_lines_hold_no_feed(text);
    lemma_brief_lines_again(list, None, None);
    lemma_lines_of_terminated(brief_lines(list, None));
    lemma_kept_lines_say_the_same(list, None);
}

} // verus!

//! Turning cargo's plain stderr into just the fixture's diagnostics.
//!
//! rustc's `rendered` field is byte-for-byte what plain stderr prints, so with
//! `--quiet` the stderr stream is already almost exactly the golden. What remains
//! is cargo's and rustc's own summary lines, which name the scratch crate and
//! count the errors. Those are *classified* out rather than filtered out: every
//! line at the margin is matched against a known shape, and one that matches
//! nothing is a hard error.
//!
//! # Why this works on blocks rather than lines
//!
//! Message text alone cannot tell a summary from a diagnostic. A derive is free
//! to emit `compile_error!("aborting due to a shape this derive cannot support")`,
//! and a line-level prefix match would delete the invariant under test from its
//! own golden.
//!
//! The reliable discriminator is the **span**. Cargo's and rustc's summaries count
//! what happened and point at nothing; every diagnostic about a fixture points
//! somewhere with a `-->` line. So the whole block is assembled first, and only a
//! block with no span at all is eligible to be dropped as a summary or reported as
//! a cargo failure. A block that points at the *generated manifest* is a cargo
//! failure for the same reason inverted.
use crate::text::{
    after, before, chars_of, copy_of, count_leading, ends_with, find, has_prefix, has_suffix,
    has_text, includes, is_digit, is_whitespace, is_word, join, joined, leading, lemma_find,
    lemma_leading_is, lines, occurs_at, position, split_lines, starts_with, string_of, texts,
    trim_start, trimmed_start, Class,
};
use vstd::prelude::*;

verus! {

/// A line at the margin the classifier could not place.
#[derive(Debug)]
pub enum ClassifyError {
    /// Matched no known shape. Reported to the user verbatim.
    Unrecognized(String),
    /// Cargo failed on its own terms -- a manifest it could not parse, a
    /// dependency it could not resolve. Not a property of the fixture.
    Cargo(String),
}

/// What a stream comes to, as a value to reason about.
pub enum Verdict {
    /// The fixture's diagnostics.
    Kept(Seq<char>),
    Unrecognized(Seq<char>),
    Cargo(Seq<char>),
}

/// The level a diagnostic opens with.
#[derive(Debug, Clone, Copy, PartialEq, Eq, Structural)]
pub enum Level {
    Warning,
    Error,
    Note,
    Help,
}

/// The header line of a diagnostic block, as a value to reason about.
pub struct Heading {
    pub level: Level,
    pub message: Seq<char>,
}

/// The header line of a diagnostic block: a level, an optional error code, a
/// colon, and the primary message.
#[derive(Debug)]
pub struct Head {
    pub level: Level,
    pub message: Vec<char>,
}

impl View for Head {
    type V = Heading;

    open spec fn view(&self) -> Heading {
        Heading { level: self.level, message: self.message@ }
    }
}

/// One block, as a value to reason about.
pub struct Section {
    /// The parsed header, or nothing for a footer, which has no level.
    pub head: Option<Heading>,
    /// Every line of the block, header included.
    pub lines: Seq<Seq<char>>,
    /// The target of the block's first `-->` line, if it has one.
    pub span: Option<Seq<char>>,
}

/// One diagnostic, from its header through the last line belonging to it, or one
/// of rustc's closing footers.
#[derive(Debug)]
pub struct Block {
    pub head: Option<Head>,
    pub lines: Vec<Vec<char>>,
    pub span: Option<Vec<char>>,
}

impl View for Block {
    type V = Section;

    open spec fn view(&self) -> Section {
        Section {
            head: match self.head {
                Some(head) => Some(head@),
                None => None,
            },
            lines: texts(self.lines@),
            span: match self.span {
                Some(span) => Some(span@),
                None => None,
            },
        }
    }
}

/// The blocks in a list.
pub open spec fn sections(list: Seq<Block>) -> Seq<Section> {
    list.map_values(|b: Block| b@)
}

// ---------------------------------------------------------------------------
// The shapes of a line.
// ---------------------------------------------------------------------------

/// Whether a line continues the block above it rather than starting a new one:
/// it is blank or set in, or it is a row of a snippet whose gutter is as wide as
/// its line number, or it is the `...` rustc prints for rows it left out.
pub open spec fn continues(line: Seq<char>) -> bool {
    let digits = leading(line, Class::Digit) as int;
    ||| line.len() == 0
    ||| line[0] == ' '
    ||| line[0] == '\t'
    ||| starts_with(line, "..."@)
    ||| digits > 0 && starts_with(trim_start(line.skip(digits)), "|"@)
}

/// Whether a line is one of rustc's closing footers, which summarize the run
/// rather than describing the code.
pub open spec fn is_closing(line: Seq<char>) -> bool {
    ||| starts_with(line, "For more information about "@)
    ||| starts_with(line, "Some errors have detailed explanations:"@)
    ||| starts_with(line, "Some warnings have detailed explanations:"@)
}

/// A level and how many characters its word has, where a line opens with one.
pub open spec fn level_of(line: Seq<char>) -> Option<(Level, int)> {
    if starts_with(line, "warning"@) {
        Some((Level::Warning, "warning"@.len() as int))
    } else if starts_with(line, "error"@) {
        Some((Level::Error, "error"@.len() as int))
    } else if starts_with(line, "note"@) {
        Some((Level::Note, "note"@.len() as int))
    } else if starts_with(line, "help"@) {
        Some((Level::Help, "help"@.len() as int))
    } else {
        None
    }
}

/// The primary message after a level: past an error code in brackets, if there is
/// one, and a colon, which there has to be.
pub open spec fn message_after(rest: Seq<char>) -> Option<Seq<char>> {
    let uncoded = if starts_with(rest, "["@) {
        match find(rest, "]"@, 1) {
            Some(k) => Some(rest.skip(k + 1)),
            None => None,
        }
    } else {
        Some(rest)
    };
    match uncoded {
        Some(tail) => if starts_with(tail, ":"@) {
            Some(trim_start(tail.skip(1)))
        } else {
            None
        },
        None => None,
    }
}

/// The header a line is, if it is one.
pub open spec fn heading(line: Seq<char>) -> Option<Heading> {
    match level_of(line) {
        Some((level, len)) => match message_after(line.skip(len)) {
            Some(message) => Some(Heading { level, message }),
            None => None,
        },
        None => None,
    }
}

/// The path a `-->` line points at, without its line and column.
pub open spec fn pointed_at(line: Seq<char>) -> Option<Seq<char>> {
    let body = trim_start(line);
    if starts_with(body, "--> "@) {
        let span = body.skip("--> "@.len() as int);
        Some(span.take(leading(span, Class::ColonFree) as int))
    } else {
        None
    }
}

/// Whether a span points at a `Cargo.toml`. The only manifest a fixture build can
/// see is the generated one.
pub open spec fn is_manifest(span: Seq<char>) -> bool {
    span == "Cargo.toml"@ || ends_with(span, "/Cargo.toml"@)
}

/// Whether a message opens with a number, as every counting summary does.
pub open spec fn counts(message: Seq<char>) -> bool {
    message.len() > 0 && is_digit(message[0])
}

/// The counting lines that close out a compilation, from both cargo and rustc.
pub open spec fn summarizes(head: Heading) -> bool {
    let message = head.message;
    match head.level {
        Level::Error => {
            ||| starts_with(message, "aborting due to "@) && counts(
                message.skip("aborting due to "@.len() as int),
            )
            ||| starts_with(message, "could not compile `"@) && has_text(message, " due to "@)
        },
        Level::Warning => {
            ||| starts_with(message, "`"@) && has_text(message, "` "@) && has_text(
                message,
                " generated "@,
            )
            ||| counts(message) && ends_with(message, " emitted"@)
        },
        _ => false,
    }
}

/// Cargo failing on its own terms.
pub open spec fn is_cargo_failure(head: Heading) -> bool {
    head.level == Level::Error && (starts_with(head.message, "failed to "@) || starts_with(
        head.message,
        "no matching package"@,
    ) || starts_with(head.message, "couldn't "@) || starts_with(
        head.message,
        "could not compile `"@,
    ))
}

// ---------------------------------------------------------------------------
// Blocks.
// ---------------------------------------------------------------------------

/// A block with one more line.
pub open spec fn extended(section: Section, line: Seq<char>) -> Section {
    Section {
        head: section.head,
        lines: section.lines.push(line),
        span: match section.span {
            Some(span) => Some(span),
            None => pointed_at(line),
        },
    }
}

/// Whether a line joins the block above it. Cargo's error chain explains the error
/// above it, so it does.
pub open spec fn joins(line: Seq<char>, above: bool) -> bool {
    continues(line) || (line == "Caused by:"@ && above)
}

/// The blocks a list of lines makes, after those already open, or the line that
/// starts none. A line that would join a block where there is none is dropped:
/// rustc always starts a diagnostic with a header, so it is a cargo status line.
pub open spec fn blocks_of(list: Seq<Seq<char>>, open: Seq<Section>) -> Result<
    Seq<Section>,
    Seq<char>,
>
    decreases list.len(),
{
    if list.len() == 0 {
        Ok(open)
    } else {
        let line = list[0];
        let rest = list.drop_first();
        if joins(line, open.len() > 0) {
            if open.len() == 0 {
                blocks_of(rest, open)
            } else {
                blocks_of(rest, open.drop_last().push(extended(open.last(), line)))
            }
        } else if is_closing(line) {
            blocks_of(rest, open.push(Section { head: None, lines: seq![line], span: None }))
        } else {
            match heading(line) {
                Some(head) => blocks_of(
                    rest,
                    open.push(Section { head: Some(head), lines: seq![line], span: None }),
                ),
                None => Err(line),
            }
        }
    }
}

/// Whether a block belongs in the golden, or cargo's own failure.
pub open spec fn verdict_on(section: Section) -> Result<bool, Seq<char>> {
    match section.head {
        None => Ok(false),
        Some(head) => match section.span {
            // An error against the generated manifest is rendered in rustc's exact
            // style, so only the span tells it apart. Any other block with a span
            // describes code, and stays.
            Some(span) => if head.level == Level::Error && is_manifest(span) {
                Err(join(section.lines, "\n"@))
            } else {
                Ok(true)
            },
            None => if summarizes(head) {
                Ok(false)
            } else if is_cargo_failure(head) {
                Err(join(section.lines, "\n"@))
            } else {
                Ok(true)
            },
        },
    }
}

/// The lines of the blocks that are kept, or the first of cargo's own failures.
pub open spec fn lines_kept(list: Seq<Section>) -> Result<Seq<Seq<char>>, Seq<char>>
    decreases list.len(),
{
    if list.len() == 0 {
        Ok(seq![])
    } else {
        match verdict_on(list[0]) {
            Err(message) => Err(message),
            Ok(kept) => match lines_kept(list.drop_first()) {
                Err(message) => Err(message),
                Ok(rest) => Ok(
                    if kept {
                        list[0].lines + rest
                    } else {
                        rest
                    },
                ),
            },
        }
    }
}

/// The text without the line feeds it ends with.
pub open spec fn without_feeds(text: Seq<char>) -> Seq<char>
    decreases text.len(),
{
    if text.len() > 0 && text.last() == '\n' {
        without_feeds(text.drop_last())
    } else {
        text
    }
}

/// What a raw stderr stream comes to.
pub open spec fn classified(stderr: Seq<char>) -> Verdict {
    match blocks_of(lines(stderr), seq![]) {
        Err(line) => Verdict::Unrecognized(line),
        Ok(blocks) => match lines_kept(blocks) {
            Err(message) => Verdict::Cargo(message),
            Ok(kept) => Verdict::Kept(without_feeds(join(kept, "\n"@))),
        },
    }
}

/// Whether a line continues the block above it rather than starting a new one.
pub fn is_continuation(line: &[char]) -> (r: bool)
    ensures
        r == continues(line@),
{
    if line.len() == 0 || line[0] == ' ' || line[0] == '\t' {
        return true;
    }
    if has_prefix(line, "...") {
        return true;
    }
    let digits: usize = count_leading(line, Class::Digit);
    digits > 0 && has_prefix(trimmed_start(after(line, digits)), "|")
}

/// Whether a line is one of rustc's closing footers.
pub fn is_footer(line: &[char]) -> (r: bool)
    ensures
        r == is_closing(line@),
{
    has_prefix(line, "For more information about ") || has_prefix(
        line,
        "Some errors have detailed explanations:",
    ) || has_prefix(line, "Some warnings have detailed explanations:")
}

/// The path a `-->` line points at, stripped of its `:line:col` suffix.
pub fn span_target(line: &[char]) -> (r: Option<Vec<char>>)
    ensures
        match r {
            Some(path) => pointed_at(line@) == Some(path@),
            None => pointed_at(line@) is None,
        },
{
    proof {
        reveal_strlit("--> ");
    }
    let body = trimmed_start(line);
    if has_prefix(body, "--> ") {
        let span = after(body, 4);
        let end: usize = count_leading(span, Class::ColonFree);
        Some(copy_of(before(span, end)))
    } else {
        None
    }
}

/// Whether a span points at a `Cargo.toml`.
pub fn points_at_manifest(span: &[char]) -> (r: bool)
    ensures
        r == is_manifest(span@),
{
    is_word(span, "Cargo.toml") || has_suffix(span, "/Cargo.toml")
}

/// Whether `message` opens with a number.
pub fn starts_with_count(message: &[char]) -> (r: bool)
    ensures
        r == counts(message@),
{
    message.len() > 0 && Class::Digit.contains(message[0])
}

fn level_at(line: &[char]) -> (r: Option<(Level, usize)>)
    ensures
        match r {
            Some((level, len)) => level_of(line@) == Some((level, len as int)) && len
                <= line@.len(),
            None => level_of(line@) is None,
        },
{
    proof {
        reveal_strlit("warning");
        reveal_strlit("error");
        reveal_strlit("note");
        reveal_strlit("help");
    }
    if has_prefix(line, "warning") {
        Some((Level::Warning, 7))
    } else if has_prefix(line, "error") {
        Some((Level::Error, 5))
    } else if has_prefix(line, "note") {
        Some((Level::Note, 4))
    } else if has_prefix(line, "help") {
        Some((Level::Help, 4))
    } else {
        None
    }
}

fn message_of(rest: &[char]) -> (r: Option<&[char]>)
    ensures
        match r {
            Some(message) => message_after(rest@) == Some(message@),
            None => message_after(rest@) is None,
        },
{
    proof {
        reveal_strlit("]");
        reveal_strlit(":");
    }
    assert(rest.len() == rest@.len());
    let tail = if has_prefix(rest, "[") {
        let close = chars_of("]");
        match position(rest, close.as_slice(), 1) {
            Some(k) => after(rest, k + 1),
            None => {
                return None;
            },
        }
    } else {
        rest
    };
    if has_prefix(tail, ":") {
        Some(trimmed_start(after(tail, 1)))
    } else {
        None
    }
}

impl Head {
    /// The header a line is, if it is one.
    pub fn parse(line: &[char]) -> (r: Option<Self>)
        ensures
            match r {
                Some(head) => heading(line@) == Some(head@),
                None => heading(line@) is None,
            },
    {
        match level_at(line) {
            Some((level, len)) => match message_of(after(line, len)) {
                Some(message) => Some(Head { level, message: copy_of(message) }),
                None => None,
            },
            None => None,
        }
    }

    /// The counting lines that close out a compilation. The cargo pair names the
    /// scratch crate and would leak it into every golden. The rustc pair is a
    /// count, so adding one diagnostic to a fixture would rewrite a line that
    /// describes nothing about the invariant under test.
    ///
    /// Only consulted for a block with no span, which is what keeps a fixture's own
    /// `compile_error!` from matching these by wording alone.
    pub fn is_summary(&self) -> (r: bool)
        ensures
            r == summarizes(self@),
    {
        let message = self.message.as_slice();
        proof {
            reveal_strlit("aborting due to ");
        }
        match self.level {
            Level::Error => (has_prefix(message, "aborting due to ") && starts_with_count(
                after(message, 16),
            )) || (has_prefix(message, "could not compile `") && includes(message, " due to ")),
            Level::Warning => (has_prefix(message, "`") && includes(message, "` ") && includes(
                message,
                " generated ",
            )) || (starts_with_count(message) && has_suffix(message, " emitted")),
            _ => false,
        }
    }

    /// Cargo failing on its own terms. Distinguished from a fixture diagnostic by
    /// having no span: cargo's resolution and manifest errors describe the build,
    /// not the code.
    pub fn is_cargo_error(&self) -> (r: bool)
        ensures
            r == is_cargo_failure(self@),
    {
        let message = self.message.as_slice();
        self.level == Level::Error && (has_prefix(message, "failed to ") || has_prefix(
            message,
            "no matching package",
        ) || has_prefix(message, "couldn't ") || has_prefix(message, "could not compile `"))
    }
}

impl Block {
    /// Whether this block belongs in the golden.
    pub fn is_kept(&self) -> (r: Result<bool, ClassifyError>)
        ensures
            match r {
                Ok(kept) => verdict_on(self@) == Ok::<bool, Seq<char>>(kept),
                Err(ClassifyError::Cargo(message)) => verdict_on(self@) == Err::<bool, Seq<char>>(
                    message@,
                ),
                Err(ClassifyError::Unrecognized(line)) => false,
            },
    {
        let head = match &self.head {
            Some(head) => head,
            None => {
                return Ok(false);
            },
        };
        match &self.span {
            Some(span) => if head.level == Level::Error && points_at_manifest(span.as_slice()) {
                let message = joined(&self.lines, "\n");
                Err(ClassifyError::Cargo(string_of(message.as_slice())))
            } else {
                Ok(true)
            },
            None => if head.is_summary() {
                Ok(false)
            } else if head.is_cargo_error() {
                let message = joined(&self.lines, "\n");
                Err(ClassifyError::Cargo(string_of(message.as_slice())))
            } else {
                Ok(true)
            },
        }
    }
}

fn extend(block: &mut Block, line: &[char])
    ensures
        final(block)@ == extended(old(block)@, line@),
{
    if block.span.is_none() {
        block.span = span_target(line);
    }
    let ghost done = texts(block.lines@);
    block.lines.push(copy_of(line));
    assert(texts(block.lines@) =~= done.push(line@));
}

/// Split stderr into blocks, failing on any line at the margin that starts none.
pub fn split(stderr: &[char]) -> (r: Result<Vec<Block>, ClassifyError>)
    ensures
        match r {
            Ok(blocks) => blocks_of(lines(stderr@), seq![]) == Ok::<Seq<Section>, Seq<char>>(
                sections(blocks@),
            ),
            Err(ClassifyError::Unrecognized(line)) => blocks_of(lines(stderr@), seq![]) == Err::<
                Seq<Section>,
                Seq<char>,
            >(line@),
            Err(ClassifyError::Cargo(message)) => false,
        },
{
    let list = split_lines(stderr);
    let ghost all = texts(list@);
    let mut blocks: Vec<Block> = Vec::new();
    let mut i: usize = 0;
    assert(all.skip(0) =~= all);
    assert(sections(blocks@) =~= seq![]);
    while i < list.len()
        invariant
            i <= list@.len(),
            all == texts(list@),
            all == lines(stderr@),
            blocks_of(all.skip(i as int), sections(blocks@)) == blocks_of(all, seq![]),
        decreases list@.len() - i,
    {
        let line = list[i].as_slice();
        let ghost open = sections(blocks@);
        assert(all.skip(i as int)[0] == line@);
        assert(all.skip(i as int).drop_first() =~= all.skip(i + 1));
        if is_continuation(line) || (is_word(line, "Caused by:") && blocks.len() > 0) {
            if let Some(mut block) = blocks.pop() {
                assert(sections(blocks@) =~= open.drop_last());
                assert(block@ == open.last());
                extend(&mut block, line);
                blocks.push(block);
                assert(sections(blocks@) =~= open.drop_last().push(extended(open.last(), line@)));
            }
        } else {
            let head = if is_footer(line) {
                None
            } else {
                match Head::parse(line) {
                    Some(head) => Some(head),
                    None => {
                        return Err(ClassifyError::Unrecognized(string_of(line)));
                    },
                }
            };
            let mut first: Vec<Vec<char>> = Vec::new();
            first.push(copy_of(line));
            assert(texts(first@) =~= seq![line@]);
            let block = Block { head, lines: first, span: None };
            blocks.push(block);
            assert(sections(blocks@) =~= open.push(block@));
        }
        i += 1;
    }
    assert(all.skip(i as int) =~= seq![]);
    Ok(blocks)
}

/// Extract the fixture's diagnostics from a raw stderr stream.
pub fn classify(stderr: &str) -> (r: Result<String, ClassifyError>)
    ensures
        match r {
            Ok(text) => classified(stderr@) == Verdict::Kept(text@),
            Err(ClassifyError::Unrecognized(line)) => classified(stderr@) == Verdict::Unrecognized(
                line@,
            ),
            Err(ClassifyError::Cargo(message)) => classified(stderr@) == Verdict::Cargo(message@),
        },
{
    let chars = chars_of(stderr);
    let blocks = match split(chars.as_slice()) {
        Ok(blocks) => blocks,
        Err(error) => {
            return Err(error);
        },
    };
    let ghost all = sections(blocks@);
    let mut kept: Vec<Vec<char>> = Vec::new();
    let mut i: usize = 0;
    assert(all.skip(0) =~= all);
    proof {
        match lines_kept(all) {
            Ok(rest) => {
                assert(texts(kept@) + rest =~= rest);
            },
            Err(_) => {},
        }
    }
    while i < blocks.len()
        invariant
            i <= blocks@.len(),
            all == sections(blocks@),
            match lines_kept(all.skip(i as int)) {
                Ok(rest) => lines_kept(all) == Ok::<Seq<Seq<char>>, Seq<char>>(
                    texts(kept@) + rest,
                ),
                Err(message) => lines_kept(all) == Err::<Seq<Seq<char>>, Seq<char>>(message),
            },
            blocks_of(lines(stderr@), seq![]) == Ok::<Seq<Section>, Seq<char>>(all),
        decreases blocks@.len() - i,
    {
        let ghost done = texts(kept@);
        assert(all.skip(i as int)[0] == blocks@[i as int]@);
        assert(all.skip(i as int).drop_first() =~= all.skip(i + 1));
        match blocks[i].is_kept() {
            Ok(true) => {
                let ghost section = blocks@[i as int]@;
                let mut j: usize = 0;
                while j < blocks[i as usize].lines.len()
                    invariant
                        i < blocks@.len(),
                        j <= blocks@[i as int].lines@.len(),
                        section == blocks@[i as int]@,
                        texts(kept@) =~= done + section.lines.take(j as int),
                    decreases blocks@[i as int].lines@.len() - j,
                {
                    let ghost so_far = texts(kept@);
                    let line = copy_of(blocks[i].lines[j].as_slice());
                    kept.push(line);
                    assert(texts(kept@) =~= so_far.push(line@));
                    j += 1;
                }
                assert(section.lines.take(j as int) =~= section.lines);
                proof {
                    match lines_kept(all.skip(i + 1)) {
                        Ok(rest) => {
                            assert(texts(kept@) + rest =~= done + (section.lines + rest));
                        },
                        Err(_) => {},
                    }
                }
            },
            Ok(false) => {},
            Err(error) => {
                return Err(error);
            },
        }
        i += 1;
    }
    assert(all.skip(i as int) =~= seq![]);
    assert(texts(kept@) + seq![] =~= texts(kept@));
    // A dropped block's trailing blank lines can leave the kept text ending in
    // white space; the normalizer settles the final newline, so only strip here.
    let mut text = joined(&kept, "\n");
    let ghost whole = text@;
    while text.len() > 0 && text[text.len() - 1] == '\n'
        invariant
            without_feeds(text@) == without_feeds(whole),
        decreases text@.len(),
    {
        let ghost before_pop = text@;
        text.pop();
        assert(text@ =~= before_pop.drop_last());
    }
    Ok(string_of(text.as_slice()))
}

// ---------------------------------------------------------------------------
// What classifying promises.
// ---------------------------------------------------------------------------

/// A diagnostic that points at code is kept, however it is worded. The one block
/// with a span that is not kept is an error against a manifest, and that one is
/// reported rather than dropped.
pub proof fn law_a_block_that_points_at_code_is_kept(section: Section)
    requires
        section.head is Some,
        section.span is Some,
    ensures
        is_manifest(section.span->0) && section.head->0.level == Level::Error ==> verdict_on(section)
            == Err::<bool, Seq<char>>(join(section.lines, "\n"@)),
        !(is_manifest(section.span->0) && section.head->0.level == Level::Error) ==> verdict_on(
            section,
        ) == Ok::<bool, Seq<char>>(true),
{
}

/// A line at the margin that matches no known shape is never passed over: the
/// whole stream is refused, wherever in it the line stands.
pub proof fn law_an_unknown_line_is_loud(list: Seq<Seq<char>>, open: Seq<Section>, i: int)
    requires
        0 <= i < list.len(),
        !continues(list[i]),
        list[i] != "Caused by:"@,
        !is_closing(list[i]),
        heading(list[i]) is None,
    ensures
        blocks_of(list, open) is Err,
    decreases list.len(),
{
    if i > 0 {
        let line = list[0];
        let rest = list.drop_first();
        assert(rest[i - 1] == list[i]);
        if joins(line, open.len() > 0) {
            if open.len() == 0 {
                law_an_unknown_line_is_loud(rest, open, i - 1);
            } else {
                law_an_unknown_line_is_loud(
                    rest,
                    open.drop_last().push(extended(open.last(), line)),
                    i - 1,
                );
            }
        } else if is_closing(line) {
            law_an_unknown_line_is_loud(
                rest,
                open.push(Section { head: None, lines: seq![line], span: None }),
                i - 1,
            );
        } else if heading(line) is Some {
            law_an_unknown_line_is_loud(
                rest,
                open.push(Section { head: heading(line), lines: seq![line], span: None }),
                i - 1,
            );
        }
    }
}

// ---------------------------------------------------------------------------
// What a line and a block are recognized by.
// ---------------------------------------------------------------------------

/// A heading is a level, a colon and the message.
pub proof fn law_a_heading_says_its_level_and_message(message: Seq<char>)
    requires
        message.len() > 0,
        !is_whitespace(message[0]),
    ensures
        heading("error"@ + ": "@ + message) == Some(Heading { level: Level::Error, message }),
        heading("warning"@ + ": "@ + message) == Some(Heading { level: Level::Warning, message }),
        heading("note"@ + ": "@ + message) == Some(Heading { level: Level::Note, message }),
        heading("help"@ + ": "@ + message) == Some(Heading { level: Level::Help, message }),
{
    let tail = ": "@ + message;
    lemma_message_after(message);
    assert("error"@ + ": "@ + message =~= "error"@ + tail);
    assert("warning"@ + ": "@ + message =~= "warning"@ + tail);
    assert("note"@ + ": "@ + message =~= "note"@ + tail);
    assert("help"@ + ": "@ + message =~= "help"@ + tail);
    lemma_level("error"@ + tail, tail);
    lemma_level("warning"@ + tail, tail);
    lemma_level("note"@ + tail, tail);
    lemma_level("help"@ + tail, tail);
}

/// An error code between the level and the colon makes no difference.
pub proof fn law_a_code_in_a_heading_is_passed(code: Seq<char>, message: Seq<char>)
    requires
        message.len() > 0,
        !is_whitespace(message[0]),
        forall|i: int| 0 <= i < code.len() ==> code[i] != ']',
    ensures
        heading("error"@ + "["@ + code + "]"@ + ": "@ + message) == heading(
            "error"@ + ": "@ + message,
        ),
        heading("error"@ + ": "@ + message) is Some,
        heading("warning"@ + "["@ + code + "]"@ + ": "@ + message) == heading(
            "warning"@ + ": "@ + message,
        ),
{
    let tail = ": "@ + message;
    let rest = "["@ + code + "]"@ + tail;
    law_a_heading_says_its_level_and_message(message);
    assert(message_after(rest) == Some(message)) by {
        lemma_message_after(message);
        lemma_code_is_passed(code, tail);
    }
    assert("error"@ + "["@ + code + "]"@ + ": "@ + message == "error"@ + rest) by {
        lemma_regrouped("error"@, code, message);
    }
    assert("warning"@ + "["@ + code + "]"@ + ": "@ + message == "warning"@ + rest) by {
        lemma_regrouped("warning"@, code, message);
    }
    lemma_level("error"@ + rest, rest);
    lemma_level("warning"@ + rest, rest);
}

proof fn lemma_regrouped(level: Seq<char>, code: Seq<char>, message: Seq<char>)
    ensures
        level + "["@ + code + "]"@ + ": "@ + message == level + ("["@ + code + "]"@ + (": "@
            + message)),
{
    assert(level + "["@ + code + "]"@ + ": "@ + message =~= level + ("["@ + code + "]"@ + (": "@
        + message)));
}

proof fn lemma_code_is_passed(code: Seq<char>, tail: Seq<char>)
    requires
        forall|i: int| 0 <= i < code.len() ==> code[i] != ']',
    ensures
        starts_with("["@ + code + "]"@ + tail, "["@),
        find("["@ + code + "]"@ + tail, "]"@, 1) == Some(1int + code.len()),
        ("["@ + code + "]"@ + tail).skip(2int + code.len()) == tail,
{
    reveal_strlit("[");
    reveal_strlit("]");
    let rest = "["@ + code + "]"@ + tail;
    let k = 1int + code.len();
    assert(rest =~= seq!['['] + code + seq![']'] + tail);
    assert(rest.subrange(0, 1) =~= "["@);
    assert(rest[k] == ']');
    assert forall|j: int| 1 <= j < k implies rest[j] != ']' by {
        assert(rest[j] == code[j - 1]);
    }
    lemma_first_bracket(rest, k);
    assert(rest.skip(k + 1) =~= tail);
}

proof fn lemma_first_bracket(rest: Seq<char>, k: int)
    requires
        1 <= k < rest.len(),
        rest[k] == ']',
        forall|j: int| 1 <= j < k ==> rest[j] != ']',
    ensures
        find(rest, "]"@, 1) == Some(k),
{
    reveal_strlit("]");
    assert(rest.subrange(k, k + 1) =~= "]"@);
    assert(occurs_at(rest, "]"@, k));
    lemma_find(rest, "]"@, 1);
    let j = find(rest, "]"@, 1)->0;
    assert(rest.subrange(j, j + 1)[0] == "]"@[0]);
    assert(rest[j] == ']');
}

proof fn lemma_message_after(message: Seq<char>)
    requires
        message.len() > 0,
        !is_whitespace(message[0]),
    ensures
        message_after(": "@ + message) == Some(message),
        starts_with(": "@ + message, ":"@),
        trim_start((": "@ + message).skip(1)) == message,
{
    reveal_strlit(": ");
    reveal_strlit(":");
    reveal_strlit("[");
    let tail = ": "@ + message;
    assert(tail.subrange(0, 1) =~= ":"@);
    if starts_with(tail, "["@) {
        assert(tail.subrange(0, 1)[0] == '[');
    }
    let inner = tail.skip(1);
    assert(inner =~= seq![' '] + message);
    lemma_leading_is(inner, Class::Whitespace, 1);
    assert(inner.skip(1) =~= message);
}

proof fn lemma_level(line: Seq<char>, tail: Seq<char>)
    ensures
        line == "error"@ + tail ==> level_of(line) == Some((Level::Error, 5int)) && line.skip(5)
            == tail,
        line == "warning"@ + tail ==> level_of(line) == Some((Level::Warning, 7int)) && line.skip(
            7,
        ) == tail,
        line == "note"@ + tail ==> level_of(line) == Some((Level::Note, 4int)) && line.skip(4)
            == tail,
        line == "help"@ + tail ==> level_of(line) == Some((Level::Help, 4int)) && line.skip(4)
            == tail,
{
    reveal_strlit("error");
    reveal_strlit("warning");
    reveal_strlit("note");
    reveal_strlit("help");
    if starts_with(line, "warning"@) {
        assert(line.subrange(0, 7)[0] == 'w');
    }
    if starts_with(line, "error"@) {
        assert(line.subrange(0, 5)[0] == 'e');
    }
    if starts_with(line, "note"@) {
        assert(line.subrange(0, 4)[0] == 'n');
    }
    if line == "error"@ + tail {
        assert(line[0] == 'e');
        assert(line.subrange(0, 5) =~= "error"@);
        assert(line.skip(5) =~= tail);
    }
    if line == "warning"@ + tail {
        assert(line[0] == 'w');
        assert(line.subrange(0, 7) =~= "warning"@);
        assert(line.skip(7) =~= tail);
    }
    if line == "note"@ + tail {
        assert(line[0] == 'n');
        assert(line.subrange(0, 4) =~= "note"@);
        assert(line.skip(4) =~= tail);
    }
    if line == "help"@ + tail {
        assert(line[0] == 'h');
        assert(line.subrange(0, 4) =~= "help"@);
        assert(line.skip(4) =~= tail);
    }
}

/// What cargo and the compiler say about the run is dropped, and nothing else is: how many
/// errors there were, what could not be compiled because of them, how many warnings there
/// were, and the closing footers.
pub proof fn law_only_what_is_about_the_run_is_dropped(section: Section)
    ensures
        section.head is None ==> verdict_on(section) == Ok::<bool, Seq<char>>(false),
        section.head is Some ==> ({
            let head = section.head->0;
            let m = head.message;
            (verdict_on(section) == Ok::<bool, Seq<char>>(false)) <==> section.span is None && {
                ||| head.level == Level::Error && starts_with(m, "could not compile `"@)
                    && has_text(m, " due to "@)
                ||| head.level == Level::Error && starts_with(m, "aborting due to "@) && m.len()
                    > "aborting due to "@.len() && is_digit(m["aborting due to "@.len() as int])
                ||| head.level == Level::Warning && starts_with(m, "`"@) && has_text(m, "` "@)
                    && has_text(m, " generated "@)
                ||| head.level == Level::Warning && m.len() > 0 && is_digit(m[0]) && ends_with(
                    m,
                    " emitted"@,
                )
            }
        }),
{
}

/// Cargo's own failures are told from the fixture's: an error that points nowhere and that
/// only cargo words so, or that points at the manifest. All of the block is handed on.
pub proof fn law_cargos_own_failures_are_loud(section: Section, head: Heading)
    requires
        section.head == Some(head),
    ensures
        verdict_on(section) is Err ==> verdict_on(section)->Err_0 == join(section.lines, "\n"@),
        section.span is Some ==> (verdict_on(section) is Err <==> head.level == Level::Error && (
        section.span->0 == "Cargo.toml"@ || ends_with(section.span->0, "/Cargo.toml"@))),
        section.span is None ==> (verdict_on(section) is Err <==> head.level == Level::Error && {
            ||| starts_with(head.message, "failed to "@)
            ||| starts_with(head.message, "no matching package"@)
            ||| starts_with(head.message, "couldn't "@)
            ||| starts_with(head.message, "could not compile `"@) && !has_text(
                head.message,
                " due to "@,
            )
        }),
{
    lemma_first_letters(head.message);
}

proof fn lemma_first_letters(message: Seq<char>)
    ensures
        starts_with(message, "failed to "@) ==> message[0] == 'f',
        starts_with(message, "no matching package"@) ==> message[0] == 'n',
        starts_with(message, "couldn't "@) ==> message[0] == 'c' && message[5] == 'n',
        starts_with(message, "could not compile `"@) ==> message[0] == 'c' && message[5] == ' ',
        starts_with(message, "aborting due to "@) ==> message[0] == 'a',
{
    reveal_strlit("failed to ");
    reveal_strlit("no matching package");
    reveal_strlit("couldn't ");
    reveal_strlit("could not compile `");
    reveal_strlit("aborting due to ");
    if starts_with(message, "failed to "@) {
        assert(message.subrange(0, 10)[0] == 'f');
    }
    if starts_with(message, "no matching package"@) {
        assert(message.subrange(0, 19)[0] == 'n');
    }
    if starts_with(message, "couldn't "@) {
        assert(message.subrange(0, 9)[0] == 'c');
        assert(message.subrange(0, 9)[5] == 'n');
    }
    if starts_with(message, "could not compile `"@) {
        assert(message.subrange(0, 19)[0] == 'c');
        assert(message.subrange(0, 19)[5] == ' ');
    }
    if starts_with(message, "aborting due to "@) {
        assert(message.subrange(0, 16)[0] == 'a');
    }
}

/// Every block is looked at by itself, and the lines of those that are kept stay in order:
/// what is kept of blocks is what is kept of the first part, and then of the rest.
pub proof fn law_blocks_are_kept_in_order(first: Seq<Section>, second: Seq<Section>)
    requires
        lines_kept(first) is Ok,
        lines_kept(second) is Ok,
    ensures
        lines_kept(first + second) == Ok::<Seq<Seq<char>>, Seq<char>>(
            lines_kept(first)->Ok_0 + lines_kept(second)->Ok_0,
        ),
        first.len() == 1 && verdict_on(first[0]) == Ok::<bool, Seq<char>>(true) ==> lines_kept(
            first,
        )->Ok_0 == first[0].lines,
    decreases first.len(),
{
    let all = first + second;
    if first.len() == 0 {
        assert(all =~= second);
        assert(lines_kept(first)->Ok_0 + lines_kept(second)->Ok_0 =~= lines_kept(second)->Ok_0);
    } else {
        let rest = first.drop_first();
        law_blocks_are_kept_in_order(rest, second);
        assert(all[0] == first[0]);
        assert(all.drop_first() =~= rest + second);
        assert(lines_kept(all)->Ok_0 =~= lines_kept(first)->Ok_0 + lines_kept(second)->Ok_0);
        if first.len() == 1 {
            assert(lines_kept(rest)->Ok_0 =~= seq![]);
            assert(first[0].lines + lines_kept(rest)->Ok_0 =~= first[0].lines);
        }
    }
}

/// A closing footer is a block of its own, and no unknown line.
pub proof fn law_a_footer_stands_by_itself(line: Seq<char>, open: Seq<Section>)
    requires
        starts_with(line, "For more information about "@) || starts_with(
            line,
            "Some errors have detailed explanations:"@,
        ) || starts_with(line, "Some warnings have detailed explanations:"@),
    ensures
        blocks_of(seq![line], open) == Ok::<Seq<Section>, Seq<char>>(
            open.push(Section { head: None, lines: seq![line], span: None }),
        ),
{
    let list = seq![line];
    let next = open.push(Section { head: None, lines: seq![line], span: None });
    lemma_footer_joins_nothing(line, open.len() > 0);
    assert(list.drop_first() =~= seq![]);
    assert(blocks_of(list.drop_first(), next) == Ok::<Seq<Section>, Seq<char>>(next));
}

proof fn lemma_footer_joins_nothing(line: Seq<char>, above: bool)
    requires
        starts_with(line, "For more information about "@) || starts_with(
            line,
            "Some errors have detailed explanations:"@,
        ) || starts_with(line, "Some warnings have detailed explanations:"@),
    ensures
        !joins(line, above),
{
    reveal_strlit("For more information about ");
    reveal_strlit("Some errors have detailed explanations:");
    reveal_strlit("Some warnings have detailed explanations:");
    reveal_strlit("Caused by:");
    reveal_strlit("...");
    if starts_with(line, "For more information about "@) {
        assert(line.subrange(0, 27)[0] == 'F');
    } else if starts_with(line, "Some errors have detailed explanations:"@) {
        assert(line.subrange(0, 39)[0] == 'S');
    } else {
        assert(line.subrange(0, 41)[0] == 'S');
    }
    if starts_with(line, "..."@) {
        assert(line.subrange(0, 3)[0] == '.');
    }
}

/// What joins the block above it, and goes with it: a blank row, one that is set in, and
/// cargo's word on the cause of the error above.
pub proof fn law_a_cause_belongs_to_the_error_above(line: Seq<char>, open: Seq<Section>)
    requires
        open.len() > 0,
        line == "Caused by:"@ || line.len() == 0 || line[0] == ' ' || line[0] == '\t'
            || starts_with(line, "..."@),
    ensures
        blocks_of(seq![line], open) matches Ok(after) && {
            &&& after.len() == open.len()
            &&& after.drop_last() == open.drop_last()
            &&& after.last().head == open.last().head
            &&& after.last().lines == open.last().lines.push(line)
        },
{
    let list = seq![line];
    let next = open.drop_last().push(extended(open.last(), line));
    assert(list.drop_first() =~= seq![]);
    assert(blocks_of(list.drop_first(), next) == Ok::<Seq<Section>, Seq<char>>(next));
    assert(next.drop_last() =~= open.drop_last());
}

} // verus!

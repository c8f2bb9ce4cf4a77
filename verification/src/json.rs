//! Just enough JSON to read `cargo --message-format=json`.
//!
//! Cargo emits one JSON object per line, and the fields this crate needs are a
//! handful of strings. That does not make a scanner sufficient: the field that
//! matters most, `message.rendered`, is a rendered diagnostic containing
//! arbitrary quotes, braces and escaped newlines, so anything short of real
//! parsing would corrupt exactly the text the goldens compare.
//!
//! So this is a complete parser for the grammar, and no more than that. Numbers
//! are checked and kept as they were written, though nothing here reads one; a
//! parser that silently skipped a construct would be a parser that silently
//! accepts malformed input.
use crate::scratch::{hex_char, toml_body, toml_char, toml_quoted};
use crate::text::{
    after, before, byte_len, bytes_in, chars_of, count_leading, decimal, has_prefix, hex_digit,
    is_digit, is_hex, leading, lemma_byte_len_add, lemma_byte_len_bounds,
    lemma_byte_len_is_encoded, lemma_leading, lemma_leading_is, occurs_at, push_chars, push_text,
    same_str, string_of, to_decimal, words, Class,
};
use vstd::prelude::*;
use vstd::slice::slice_subrange;

verus! {

/// `char::from_u32`, which is the character with that number where there is one:
/// every number up to 0x10FFFF but the surrogates.
pub assume_specification[ char::from_u32 ](i: u32) -> (r: Option<char>)
    ensures
        match r {
            Some(c) => c as u32 == i,
            None => 0xD800 <= i <= 0xDFFF || i > 0x10FFFF,
        },
;

/// A JSON value, as a value to reason about.
pub enum Json {
    Null,
    Bool(bool),
    Number(Seq<char>),
    Text(Seq<char>),
    Array(Seq<Json>),
    Object(Seq<(Seq<char>, Json)>),
}

/// A parsed JSON value.
#[derive(Debug, PartialEq)]
pub enum Value {
    Null,
    Bool(bool),
    /// As it was written, which the grammar has been checked against.
    Number(String),
    String(String),
    Array(Vec<Value>),
    /// Kept as pairs rather than a map: cargo's objects are small, and this
    /// preserves order, which makes a failure message reproducible.
    Object(Vec<(String, Value)>),
}

/// The values in a list.
pub open spec fn values(list: Seq<Value>) -> Seq<Json>
    decreases list,
{
    if list.len() == 0 {
        seq![]
    } else {
        seq![list[0]@] + values(list.drop_first())
    }
}

/// The keys and values in a list.
pub open spec fn members(list: Seq<(String, Value)>) -> Seq<(Seq<char>, Json)>
    decreases list,
{
    if list.len() == 0 {
        seq![]
    } else {
        seq![(list[0].0@, list[0].1@)] + members(list.drop_first())
    }
}

impl View for Value {
    type V = Json;

    open spec fn view(&self) -> Json
        decreases self,
    {
        match self {
            Value::Null => Json::Null,
            Value::Bool(b) => Json::Bool(*b),
            Value::Number(text) => Json::Number(text@),
            Value::String(text) => Json::Text(text@),
            Value::Array(items) => Json::Array(values(items@)),
            Value::Object(pairs) => Json::Object(members(pairs@)),
        }
    }
}

// ---------------------------------------------------------------------------
// The grammar.
// ---------------------------------------------------------------------------

/// What reading from a position comes to: something found and the position after
/// it, or a fault and the byte it was found at.
pub enum Read<T> {
    Found(T, int),
    Fault(Seq<char>, nat),
}

/// How many bytes come before position `at`.
pub open spec fn offset(s: Seq<char>, at: int) -> nat {
    byte_len(s.take(at))
}

/// The first position at or after `at` that holds no white space.
pub open spec fn skip_blank(s: Seq<char>, at: int) -> int {
    at + leading(s.skip(at), Class::Blank)
}

/// The position after the run of digits at `at`.
pub open spec fn skip_digits(s: Seq<char>, at: int) -> int {
    at + leading(s.skip(at), Class::Digit)
}

/// Whether `c` stands at position `at`.
pub open spec fn stands(s: Seq<char>, at: int, c: char) -> bool {
    0 <= at < s.len() && s[at] == c
}

/// Whether a digit stands at position `at`.
pub open spec fn digit_at(s: Seq<char>, at: int) -> bool {
    0 <= at < s.len() && is_digit(s[at])
}

/// The four hexadecimal digits of a `\u` escape.
pub open spec fn read_hex4(s: Seq<char>, at: int) -> Read<nat> {
    if byte_len(s.skip(at)) < 4 {
        Read::Fault("truncated `\\u` escape"@, offset(s, at))
    } else if at + 4 <= s.len() && is_hex(s[at]) && is_hex(s[at + 1]) && is_hex(s[at + 2]) && is_hex(
        s[at + 3],
    ) {
        Read::Found(
            4096 * hex_digit(s[at]) + 256 * hex_digit(s[at + 1]) + 16 * hex_digit(s[at + 2])
                + hex_digit(s[at + 3]),
            at + 4,
        )
    } else {
        Read::Fault("`\\u` escape is not four hex digits"@, offset(s, at))
    }
}

/// The character of a `\u` escape, from its first digit on. A high surrogate is
/// only half a character; the low half has to follow as a second escape.
pub open spec fn read_unicode(s: Seq<char>, at: int) -> Read<char> {
    match read_hex4(s, at) {
        Read::Fault(message, byte) => Read::Fault(message, byte),
        Read::Found(first, next) => if 0xD800 <= first <= 0xDBFF {
            if !occurs_at(s, "\\u"@, next) {
                Read::Fault("high surrogate without a low surrogate"@, offset(s, next))
            } else {
                match read_hex4(s, next + 2) {
                    Read::Fault(message, byte) => Read::Fault(message, byte),
                    Read::Found(second, end) => if 0xDC00 <= second <= 0xDFFF {
                        Read::Found(
                            ((0x10000 + (first - 0xD800) * 1024 + (second - 0xDC00)) as u32) as char,
                            end,
                        )
                    } else {
                        Read::Fault(
                            "high surrogate followed by a non-surrogate"@,
                            offset(s, end),
                        )
                    },
                }
            }
        } else if 0xDC00 <= first <= 0xDFFF {
            Read::Fault("escape is not a character"@, offset(s, next))
        } else {
            Read::Found((first as u32) as char, next)
        },
    }
}

/// The character a `\` stands for, from what comes after it.
pub open spec fn read_escape(s: Seq<char>, at: int) -> Read<char> {
    if at >= s.len() {
        Read::Fault("unterminated escape"@, offset(s, at))
    } else if s[at] == '"' || s[at] == '\\' || s[at] == '/' {
        Read::Found(s[at], at + 1)
    } else if s[at] == 'b' {
        Read::Found('\u{8}', at + 1)
    } else if s[at] == 'f' {
        Read::Found('\u{c}', at + 1)
    } else if s[at] == 'n' {
        Read::Found('\n', at + 1)
    } else if s[at] == 'r' {
        Read::Found('\r', at + 1)
    } else if s[at] == 't' {
        Read::Found('\t', at + 1)
    } else if s[at] == 'u' {
        read_unicode(s, at + 1)
    } else {
        Read::Fault("unknown escape"@, offset(s, at) + 1)
    }
}

/// The rest of a string after `text`, up to its closing quote.
pub open spec fn read_body(s: Seq<char>, at: int, text: Seq<char>) -> Read<Seq<char>>
    decreases s.len() - at,
{
    if at >= s.len() {
        Read::Fault("unterminated string"@, offset(s, at))
    } else if s[at] == '"' {
        Read::Found(text, at + 1)
    } else if s[at] == '\\' {
        match read_escape(s, at + 1) {
            Read::Fault(message, byte) => Read::Fault(message, byte),
            Read::Found(c, next) => read_body(s, next, text.push(c)),
        }
    } else if (s[at] as u32) < 0x20 {
        Read::Fault("unescaped control character in string"@, offset(s, at))
    } else {
        read_body(s, at + 1, text.push(s[at]))
    }
}

/// A string.
pub open spec fn read_string(s: Seq<char>, at: int) -> Read<Seq<char>> {
    if stands(s, at, '"') {
        read_body(s, at + 1, seq![])
    } else {
        Read::Fault("expected `\"`"@, offset(s, at))
    }
}

/// The end of a number's exponent, from where an `e` may stand.
pub open spec fn read_exponent(s: Seq<char>, at: int) -> Read<()> {
    if stands(s, at, 'e') || stands(s, at, 'E') {
        let signed = if stands(s, at + 1, '+') || stands(s, at + 1, '-') {
            at + 2
        } else {
            at + 1
        };
        if digit_at(s, signed) {
            Read::Found((), skip_digits(s, signed))
        } else {
            Read::Fault("expected a digit in the exponent"@, offset(s, signed))
        }
    } else {
        Read::Found((), at)
    }
}

/// The end of a number after its integer part.
pub open spec fn read_fraction(s: Seq<char>, at: int) -> Read<()> {
    if stands(s, at, '.') {
        if digit_at(s, at + 1) {
            read_exponent(s, skip_digits(s, at + 1))
        } else {
            Read::Fault("expected a digit after `.`"@, offset(s, at + 1))
        }
    } else {
        read_exponent(s, at)
    }
}

/// The end of a number after its sign. An integer part is required, and a leading
/// zero cannot be followed by more digits.
pub open spec fn read_digits(s: Seq<char>, at: int) -> Read<()> {
    if stands(s, at, '0') {
        read_fraction(s, at + 1)
    } else if digit_at(s, at) {
        read_fraction(s, skip_digits(s, at))
    } else {
        Read::Fault("expected a digit"@, offset(s, at))
    }
}

/// A number.
pub open spec fn read_number(s: Seq<char>, at: int) -> Read<Json> {
    let unsigned = if stands(s, at, '-') {
        at + 1
    } else {
        at
    };
    match read_digits(s, unsigned) {
        Read::Fault(message, byte) => Read::Fault(message, byte),
        Read::Found(_, end) => Read::Found(Json::Number(s.subrange(at, end)), end),
    }
}

/// One of the three words.
pub open spec fn read_literal(s: Seq<char>, at: int, word: Seq<char>, value: Json) -> Read<Json> {
    if occurs_at(s, word, at) {
        Read::Found(value, at + word.len())
    } else {
        Read::Fault("expected `"@ + word + "`"@, offset(s, at))
    }
}

/// A value.
pub open spec fn read_value(s: Seq<char>, at: int) -> Read<Json>
    decreases s.len() - at, 0int,
{
    if at < 0 || at >= s.len() {
        Read::Fault("unexpected end of input"@, offset(s, at))
    } else if s[at] == '{' {
        let inside = skip_blank(s, at + 1);
        if stands(s, inside, '}') {
            Read::Found(Json::Object(seq![]), inside + 1)
        } else {
            proof {
                lemma_leading(s.skip(at + 1), Class::Blank);
            }
            read_members(s, inside, seq![])
        }
    } else if s[at] == '[' {
        let inside = skip_blank(s, at + 1);
        if stands(s, inside, ']') {
            Read::Found(Json::Array(seq![]), inside + 1)
        } else {
            proof {
                lemma_leading(s.skip(at + 1), Class::Blank);
            }
            read_items(s, inside, seq![])
        }
    } else if s[at] == '"' {
        match read_string(s, at) {
            Read::Fault(message, byte) => Read::Fault(message, byte),
            Read::Found(text, next) => Read::Found(Json::Text(text), next),
        }
    } else if s[at] == 't' {
        read_literal(s, at, "true"@, Json::Bool(true))
    } else if s[at] == 'f' {
        read_literal(s, at, "false"@, Json::Bool(false))
    } else if s[at] == 'n' {
        read_literal(s, at, "null"@, Json::Null)
    } else if s[at] == '-' || is_digit(s[at]) {
        read_number(s, at)
    } else {
        Read::Fault("expected a value"@, offset(s, at))
    }
}

/// The rest of an object after `pairs`, from where a key stands.
pub open spec fn read_members(s: Seq<char>, at: int, pairs: Seq<(Seq<char>, Json)>) -> Read<Json>
    decreases s.len() - at, 1int,
{
    match read_string(s, at) {
        Read::Fault(message, byte) => Read::Fault(message, byte),
        Read::Found(key, key_end) => {
            let colon = skip_blank(s, key_end);
            if at <= colon && stands(s, colon, ':') {
                let start = skip_blank(s, colon + 1);
                proof {
                    lemma_leading(s.skip(colon + 1), Class::Blank);
                }
                match read_value(s, start) {
                    Read::Fault(message, byte) => Read::Fault(message, byte),
                    Read::Found(value, end) => {
                        let next = skip_blank(s, end);
                        let more = pairs.push((key, value));
                        if at <= next && stands(s, next, ',') {
                            proof {
                                lemma_leading(s.skip(next + 1), Class::Blank);
                            }
                            read_members(s, skip_blank(s, next + 1), more)
                        } else if stands(s, next, '}') {
                            Read::Found(Json::Object(more), next + 1)
                        } else {
                            Read::Fault("expected `,` or `}`"@, offset(s, next))
                        }
                    },
                }
            } else {
                Read::Fault("expected `:`"@, offset(s, colon))
            }
        },
    }
}

/// The rest of an array after `items`, from where an item stands.
pub open spec fn read_items(s: Seq<char>, at: int, items: Seq<Json>) -> Read<Json>
    decreases s.len() - at, 1int,
{
    match read_value(s, at) {
        Read::Fault(message, byte) => Read::Fault(message, byte),
        Read::Found(value, end) => {
            let next = skip_blank(s, end);
            let more = items.push(value);
            if at <= next && stands(s, next, ',') {
                proof {
                    lemma_leading(s.skip(next + 1), Class::Blank);
                }
                read_items(s, skip_blank(s, next + 1), more)
            } else if stands(s, next, ']') {
                Read::Found(Json::Array(more), next + 1)
            } else {
                Read::Fault("expected `,` or `]`"@, offset(s, next))
            }
        },
    }
}

/// One complete value, with nothing but white space around it.
pub open spec fn document(s: Seq<char>) -> Read<Json> {
    match read_value(s, skip_blank(s, 0)) {
        Read::Fault(message, byte) => Read::Fault(message, byte),
        Read::Found(value, end) => {
            let next = skip_blank(s, end);
            if next == s.len() {
                Read::Found(value, next)
            } else {
                Read::Fault("trailing content after the value"@, offset(s, next))
            }
        },
    }
}

// ---------------------------------------------------------------------------
// The parser.
// ---------------------------------------------------------------------------

/// A parse failure, with the byte offset it was found at.
#[derive(Debug)]
pub struct Error {
    pub message: String,
    pub offset: usize,
}

/// The text of a parse failure.
pub open spec fn fault_text(message: Seq<char>, byte: nat) -> Seq<char> {
    message + " at byte "@ + decimal(byte)
}

impl Error {
    /// The failure, and where it was found.
    pub fn to_string(&self) -> (r: String)
        ensures
            r@ == fault_text(self.message@, self.offset as nat),
    {
        let mut out = chars_of(self.message.as_str());
        push_text(&mut out, " at byte ");
        let number = to_decimal(self.offset);
        push_chars(&mut out, number.as_slice());
        string_of(out.as_slice())
    }
}

/// A text whose bytes can be counted in a `usize`.
pub open spec fn countable(s: Seq<char>) -> bool {
    s.len() <= usize::MAX && byte_len(s) <= usize::MAX
}

/// The bytes before a position are among the bytes of the text.
proof fn lemma_offset(s: Seq<char>, at: int)
    requires
        0 <= at <= s.len(),
    ensures
        offset(s, at) + byte_len(s.skip(at)) == byte_len(s),
        offset(s, at) <= byte_len(s),
        at < s.len() ==> offset(s, at) < byte_len(s),
{
    lemma_byte_len_add(s.take(at), s.skip(at));
    assert(s.take(at) + s.skip(at) =~= s);
    lemma_byte_len_bounds(s.skip(at));
}

fn error(message: &str, s: &[char], at: usize) -> (r: Error)
    requires
        countable(s@),
        at <= s@.len(),
    ensures
        r.message@ == message@,
        r.offset == offset(s@, at as int),
{
    proof {
        lemma_offset(s@, at as int);
    }
    Error { message: message.to_owned(), offset: bytes_in(before(s, at)) as usize }
}

fn skip_whitespace(s: &[char], at: usize) -> (r: usize)
    requires
        at <= s@.len(),
    ensures
        r == skip_blank(s@, at as int),
        at <= r <= s@.len(),
{
    assert(s.len() == s@.len());
    at + count_leading(after(s, at), Class::Blank)
}

fn digits(s: &[char], at: usize) -> (r: usize)
    requires
        at <= s@.len(),
    ensures
        r == skip_digits(s@, at as int),
        at <= r <= s@.len(),
{
    assert(s.len() == s@.len());
    at + count_leading(after(s, at), Class::Digit)
}

fn is_at(s: &[char], at: usize, c: char) -> (r: bool)
    ensures
        r == stands(s@, at as int, c),
{
    at < s.len() && s[at] == c
}

fn is_digit_at(s: &[char], at: usize) -> (r: bool)
    ensures
        r == digit_at(s@, at as int),
{
    at < s.len() && Class::Digit.contains(s[at])
}

fn hex_worth(c: char) -> (r: u32)
    requires
        is_hex(c),
    ensures
        r == hex_digit(c),
        r < 16,
{
    let n: u32 = c as u32;
    if '0' <= c && c <= '9' {
        n - 48
    } else if 'a' <= c && c <= 'f' {
        n - 97 + 10
    } else {
        n - 65 + 10
    }
}

fn hex4(s: &[char], at: usize) -> (r: Result<(u32, usize), Error>)
    requires
        countable(s@),
        at <= s@.len(),
    ensures
        match r {
            Ok((n, next)) => read_hex4(s@, at as int) == Read::Found(n as nat, next as int),
            Err(e) => read_hex4(s@, at as int) == Read::<nat>::Fault(e.message@, e.offset as nat),
        },
        r matches Ok((n, next)) ==> at < next <= s@.len() && n <= 0xFFFF,
{
    if bytes_in(after(s, at)) < 4 {
        return Err(error("truncated `\\u` escape", s, at));
    }
    if s.len() - at >= 4 && Class::Hex.contains(s[at]) && Class::Hex.contains(s[at + 1])
        && Class::Hex.contains(s[at + 2]) && Class::Hex.contains(s[at + 3]) {
        let n: u32 = 4096 * hex_worth(s[at]) + 256 * hex_worth(s[at + 1]) + 16 * hex_worth(
            s[at + 2],
        ) + hex_worth(s[at + 3]);
        Ok((n, at + 4))
    } else {
        Err(error("`\\u` escape is not four hex digits", s, at))
    }
}

/// A `\uXXXX` escape, joining a surrogate pair when it finds one.
fn unicode_escape(s: &[char], at: usize) -> (r: Result<(char, usize), Error>)
    requires
        countable(s@),
        at <= s@.len(),
    ensures
        match r {
            Ok((c, next)) => read_unicode(s@, at as int) == Read::Found(c, next as int),
            Err(e) => read_unicode(s@, at as int) == Read::<char>::Fault(
                e.message@,
                e.offset as nat,
            ),
        },
        r matches Ok((c, next)) ==> at < next <= s@.len(),
{
    let (first, next): (u32, usize) = match hex4(s, at) {
        Ok(found) => found,
        Err(e) => {
            return Err(e);
        },
    };
    if 0xD800 <= first && first <= 0xDBFF {
        let rest = after(s, next);
        proof {
            reveal_strlit("\\u");
            if rest@.len() >= 2 {
                assert(rest@.subrange(0, 2) =~= s@.subrange(next as int, next + 2));
            }
        }
        if !has_prefix(rest, "\\u") {
            return Err(error("high surrogate without a low surrogate", s, next));
        }
        let (second, end): (u32, usize) = match hex4(s, next + 2) {
            Ok(found) => found,
            Err(e) => {
                return Err(e);
            },
        };
        if !(0xDC00 <= second && second <= 0xDFFF) {
            return Err(error("high surrogate followed by a non-surrogate", s, end));
        }
        match char::from_u32(0x10000 + (first - 0xD800) * 1024 + (second - 0xDC00)) {
            Some(c) => {
                proof {
                    vstd::utf8::char_u32_cast(c, c as u32);
                }
                Ok((c, end))
            },
            None => Err(error("invalid surrogate pair", s, end)),
        }
    } else {
        match char::from_u32(first) {
            Some(c) => {
                proof {
                    vstd::utf8::char_u32_cast(c, c as u32);
                }
                Ok((c, next))
            },
            None => Err(error("escape is not a character", s, next)),
        }
    }
}

/// The character after a `\`, already consumed.
fn escape(s: &[char], at: usize) -> (r: Result<(char, usize), Error>)
    requires
        countable(s@),
        at <= s@.len(),
    ensures
        match r {
            Ok((c, next)) => read_escape(s@, at as int) == Read::Found(c, next as int),
            Err(e) => read_escape(s@, at as int) == Read::<char>::Fault(
                e.message@,
                e.offset as nat,
            ),
        },
        r matches Ok((c, next)) ==> at < next <= s@.len(),
{
    if at >= s.len() {
        return Err(error("unterminated escape", s, at));
    }
    let c = s[at];
    if c == '"' || c == '\\' || c == '/' {
        Ok((c, at + 1))
    } else if c == 'b' {
        Ok(('\u{8}', at + 1))
    } else if c == 'f' {
        Ok(('\u{c}', at + 1))
    } else if c == 'n' {
        Ok(('\n', at + 1))
    } else if c == 'r' {
        Ok(('\r', at + 1))
    } else if c == 't' {
        Ok(('\t', at + 1))
    } else if c == 'u' {
        unicode_escape(s, at + 1)
    } else {
        proof {
            lemma_offset(s@, at as int);
        }
        let found = error("unknown escape", s, at);
        Err(Error { message: found.message, offset: found.offset + 1 })
    }
}

fn string(s: &[char], at: usize) -> (r: Result<(String, usize), Error>)
    requires
        countable(s@),
        at <= s@.len(),
    ensures
        match r {
            Ok((text, next)) => read_string(s@, at as int) == Read::Found(text@, next as int),
            Err(e) => read_string(s@, at as int) == Read::<Seq<char>>::Fault(
                e.message@,
                e.offset as nat,
            ),
        },
        r matches Ok((text, next)) ==> at < next <= s@.len(),
{
    if !is_at(s, at, '"') {
        return Err(error("expected `\"`", s, at));
    }
    let mut out: String = String::new();
    let mut i: usize = at + 1;
    assert(out@ =~= seq![]);
    while i < s.len()
        invariant
            at < i <= s@.len(),
            countable(s@),
            read_string(s@, at as int) == read_body(s@, i as int, out@),
        decreases s@.len() - i,
    {
        let c = s[i];
        if c == '"' {
            return Ok((out, i + 1));
        } else if c == '\\' {
            match escape(s, i + 1) {
                Ok((c, next)) => {
                    out.push(c);
                    i = next;
                },
                Err(e) => {
                    return Err(e);
                },
            }
        } else if (c as u32) < 0x20 {
            return Err(error("unescaped control character in string", s, i));
        } else {
            out.push(c);
            i += 1;
        }
    }
    Err(error("unterminated string", s, i))
}

fn exponent(s: &[char], at: usize) -> (r: Result<usize, Error>)
    requires
        countable(s@),
        at <= s@.len(),
    ensures
        match r {
            Ok(next) => read_exponent(s@, at as int) == Read::Found((), next as int),
            Err(e) => read_exponent(s@, at as int) == Read::<()>::Fault(e.message@, e.offset as nat),
        },
        r matches Ok(next) ==> at <= next <= s@.len(),
{
    if is_at(s, at, 'e') || is_at(s, at, 'E') {
        let signed: usize = if is_at(s, at + 1, '+') || is_at(s, at + 1, '-') {
            at + 2
        } else {
            at + 1
        };
        if is_digit_at(s, signed) {
            Ok(digits(s, signed))
        } else {
            Err(error("expected a digit in the exponent", s, signed))
        }
    } else {
        Ok(at)
    }
}

fn fraction(s: &[char], at: usize) -> (r: Result<usize, Error>)
    requires
        countable(s@),
        at <= s@.len(),
    ensures
        match r {
            Ok(next) => read_fraction(s@, at as int) == Read::Found((), next as int),
            Err(e) => read_fraction(s@, at as int) == Read::<()>::Fault(e.message@, e.offset as nat),
        },
        r matches Ok(next) ==> at <= next <= s@.len(),
{
    if is_at(s, at, '.') {
        if is_digit_at(s, at + 1) {
            exponent(s, digits(s, at + 1))
        } else {
            Err(error("expected a digit after `.`", s, at + 1))
        }
    } else {
        exponent(s, at)
    }
}

fn number(s: &[char], at: usize) -> (r: Result<(Value, usize), Error>)
    requires
        countable(s@),
        at <= s@.len(),
    ensures
        match r {
            Ok((value, next)) => read_number(s@, at as int) == Read::Found(value@, next as int),
            Err(e) => read_number(s@, at as int) == Read::<Json>::Fault(e.message@, e.offset as nat),
        },
        r matches Ok((value, next)) ==> at < next <= s@.len(),
{
    let unsigned: usize = if is_at(s, at, '-') {
        at + 1
    } else {
        at
    };
    // An integer part is required, and a leading zero cannot be followed by more
    // digits.
    let end: Result<usize, Error> = if is_at(s, unsigned, '0') {
        fraction(s, unsigned + 1)
    } else if is_digit_at(s, unsigned) {
        proof {
            assert(s@.skip(unsigned as int)[0] == s@[unsigned as int]);
        }
        fraction(s, digits(s, unsigned))
    } else {
        Err(error("expected a digit", s, unsigned))
    };
    match end {
        Ok(end) => {
            let text = string_of(slice_subrange(s, at, end));
            Ok((Value::Number(text), end))
        },
        Err(e) => Err(e),
    }
}

fn literal(s: &[char], at: usize, word: &str, value: Value) -> (r: Result<(Value, usize), Error>)
    requires
        countable(s@),
        at <= s@.len(),
    ensures
        match r {
            Ok((v, next)) => read_literal(s@, at as int, word@, value@) == Read::Found(
                v@,
                next as int,
            ),
            Err(e) => read_literal(s@, at as int, word@, value@) == Read::<Json>::Fault(
                e.message@,
                e.offset as nat,
            ),
        },
        r matches Ok((v, next)) ==> next == at + word@.len() <= s@.len(),
{
    let chars = chars_of(word);
    let rest = after(s, at);
    proof {
        if rest@.len() >= word@.len() {
            assert(rest@.subrange(0, word@.len() as int) =~= s@.subrange(
                at as int,
                at + word@.len(),
            ));
        }
    }
    if has_prefix(rest, word) {
        return Ok((value, at + chars.len()));
    }
    let mut message = chars_of("expected `");
    push_text(&mut message, word);
    push_text(&mut message, "`");
    let message = string_of(message.as_slice());
    Err(error(message.as_str(), s, at))
}

/// Adding an item to the end of a list.
proof fn lemma_values_push(list: Seq<Value>, item: Value)
    ensures
        values(list.push(item)) == values(list).push(item@),
    decreases list.len(),
{
    reveal_with_fuel(values, 2);
    if list.len() == 0 {
        assert(list.push(item).drop_first() =~= seq![]);
        assert(values(list.push(item)) =~= values(list).push(item@));
    } else {
        lemma_values_push(list.drop_first(), item);
        assert(list.push(item).drop_first() =~= list.drop_first().push(item));
        assert(values(list.push(item)) =~= values(list).push(item@));
    }
}

/// Adding a pair to the end of a list.
proof fn lemma_members_push(list: Seq<(String, Value)>, pair: (String, Value))
    ensures
        members(list.push(pair)) == members(list).push((pair.0@, pair.1@)),
    decreases list.len(),
{
    reveal_with_fuel(members, 2);
    if list.len() == 0 {
        assert(list.push(pair).drop_first() =~= seq![]);
        assert(members(list.push(pair)) =~= members(list).push((pair.0@, pair.1@)));
    } else {
        lemma_members_push(list.drop_first(), pair);
        assert(list.push(pair).drop_first() =~= list.drop_first().push(pair));
        assert(members(list.push(pair)) =~= members(list).push((pair.0@, pair.1@)));
    }
}

fn value(s: &[char], at: usize) -> (r: Result<(Value, usize), Error>)
    requires
        countable(s@),
        at <= s@.len(),
    ensures
        match r {
            Ok((v, next)) => read_value(s@, at as int) == Read::Found(v@, next as int),
            Err(e) => read_value(s@, at as int) == Read::<Json>::Fault(e.message@, e.offset as nat),
        },
        r matches Ok((v, next)) ==> at < next <= s@.len(),
    decreases s@.len() - at, 0nat,
{
    if at >= s.len() {
        return Err(error("unexpected end of input", s, at));
    }
    let c = s[at];
    if c == '{' {
        object(s, at)
    } else if c == '[' {
        array(s, at)
    } else if c == '"' {
        match string(s, at) {
            Ok((text, next)) => Ok((Value::String(text), next)),
            Err(e) => Err(e),
        }
    } else if c == 't' {
        proof {
            reveal_strlit("true");
        }
        literal(s, at, "true", Value::Bool(true))
    } else if c == 'f' {
        proof {
            reveal_strlit("false");
        }
        literal(s, at, "false", Value::Bool(false))
    } else if c == 'n' {
        proof {
            reveal_strlit("null");
        }
        literal(s, at, "null", Value::Null)
    } else if c == '-' || Class::Digit.contains(c) {
        number(s, at)
    } else {
        Err(error("expected a value", s, at))
    }
}

fn object(s: &[char], at: usize) -> (r: Result<(Value, usize), Error>)
    requires
        countable(s@),
        at < s@.len(),
        s@[at as int] == '{',
    ensures
        match r {
            Ok((v, next)) => read_value(s@, at as int) == Read::Found(v@, next as int),
            Err(e) => read_value(s@, at as int) == Read::<Json>::Fault(e.message@, e.offset as nat),
        },
        r matches Ok((v, next)) ==> at < next <= s@.len(),
    decreases s@.len() - at - 1, 1nat,
{
    let mut pairs: Vec<(String, Value)> = Vec::new();
    let mut i: usize = skip_whitespace(s, at + 1);
    assert(members(pairs@) =~= seq![]);
    if is_at(s, i, '}') {
        return Ok((Value::Object(pairs), i + 1));
    }
    loop
        invariant
            countable(s@),
            at < i <= s@.len(),
            read_value(s@, at as int) == read_members(s@, i as int, members(pairs@)),
        decreases s@.len() - i,
    {
        let (key, key_end): (String, usize) = match string(s, i) {
            Ok(found) => found,
            Err(e) => {
                return Err(e);
            },
        };
        let colon: usize = skip_whitespace(s, key_end);
        if !is_at(s, colon, ':') {
            return Err(error("expected `:`", s, colon));
        }
        let start: usize = skip_whitespace(s, colon + 1);
        let (found, end): (Value, usize) = match value(s, start) {
            Ok(found) => found,
            Err(e) => {
                return Err(e);
            },
        };
        proof {
            lemma_members_push(pairs@, (key, found));
        }
        pairs.push((key, found));
        let next: usize = skip_whitespace(s, end);
        if is_at(s, next, ',') {
            i = skip_whitespace(s, next + 1);
        } else if is_at(s, next, '}') {
            return Ok((Value::Object(pairs), next + 1));
        } else {
            return Err(error("expected `,` or `}`", s, next));
        }
    }
}

fn array(s: &[char], at: usize) -> (r: Result<(Value, usize), Error>)
    requires
        countable(s@),
        at < s@.len(),
        s@[at as int] == '[',
    ensures
        match r {
            Ok((v, next)) => read_value(s@, at as int) == Read::Found(v@, next as int),
            Err(e) => read_value(s@, at as int) == Read::<Json>::Fault(e.message@, e.offset as nat),
        },
        r matches Ok((v, next)) ==> at < next <= s@.len(),
    decreases s@.len() - at - 1, 1nat,
{
    let mut items: Vec<Value> = Vec::new();
    let mut i: usize = skip_whitespace(s, at + 1);
    assert(values(items@) =~= seq![]);
    if is_at(s, i, ']') {
        return Ok((Value::Array(items), i + 1));
    }
    loop
        invariant
            countable(s@),
            at < i <= s@.len(),
            read_value(s@, at as int) == read_items(s@, i as int, values(items@)),
        decreases s@.len() - i,
    {
        let (found, end): (Value, usize) = match value(s, i) {
            Ok(found) => found,
            Err(e) => {
                return Err(e);
            },
        };
        proof {
            lemma_values_push(items@, found);
        }
        items.push(found);
        let next: usize = skip_whitespace(s, end);
        if is_at(s, next, ',') {
            i = skip_whitespace(s, next + 1);
        } else if is_at(s, next, ']') {
            return Ok((Value::Array(items), next + 1));
        } else {
            return Err(error("expected `,` or `]`", s, next));
        }
    }
}

/// Parse one complete JSON value, rejecting trailing content.
pub fn parse(input: &str) -> (r: Result<Value, Error>)
    ensures
        match r {
            Ok(v) => document(input@) == Read::Found(v@, input@.len() as int),
            Err(e) => document(input@) == Read::<Json>::Fault(e.message@, e.offset as nat),
        },
{
    let bytes = input.as_bytes();
    let size: usize = bytes.len();
    let chars = chars_of(input);
    let s = chars.as_slice();
    proof {
        lemma_byte_len_is_encoded(input@);
        lemma_byte_len_bounds(input@);
        assert(size == bytes@.len());
    }
    let start: usize = skip_whitespace(s, 0);
    match value(s, start) {
        Ok((v, end)) => {
            let next: usize = skip_whitespace(s, end);
            if next != s.len() {
                return Err(error("trailing content after the value", s, next));
            }
            Ok(v)
        },
        Err(e) => Err(e),
    }
}

// ---------------------------------------------------------------------------
// Looking things up.
// ---------------------------------------------------------------------------

/// The value of the first pair with this key.
pub open spec fn first_with(pairs: Seq<(Seq<char>, Json)>, key: Seq<char>) -> Option<Json>
    decreases pairs.len(),
{
    if pairs.len() == 0 {
        None
    } else if pairs[0].0 == key {
        Some(pairs[0].1)
    } else {
        first_with(pairs.drop_first(), key)
    }
}

/// The value for `key`, if this is an object that has one. A key that stands
/// twice means its first value.
pub open spec fn member(json: Json, key: Seq<char>) -> Option<Json> {
    match json {
        Json::Object(pairs) => first_with(pairs, key),
        _ => None,
    }
}

/// The string at a path of object keys, if every step exists.
pub open spec fn text_at(json: Json, path: Seq<Seq<char>>) -> Option<Seq<char>>
    decreases path.len(),
{
    if path.len() == 0 {
        match json {
            Json::Text(text) => Some(text),
            _ => None,
        }
    } else {
        match member(json, path[0]) {
            Some(inner) => text_at(inner, path.drop_first()),
            None => None,
        }
    }
}

impl Value {
    /// The value for `key`, if this is an object that has one.
    pub fn get(&self, key: &str) -> (r: Option<&Value>)
        ensures
            match r {
                Some(v) => member(self@, key@) == Some(v@),
                None => member(self@, key@) is None,
            },
    {
        match self {
            Value::Object(pairs) => {
                let mut i: usize = 0;
                assert(pairs@.skip(0) =~= pairs@);
                while i < pairs.len()
                    invariant
                        i <= pairs@.len(),
                        first_with(members(pairs@.skip(i as int)), key@) == first_with(
                            members(pairs@),
                            key@,
                        ),
                        self@ == Json::Object(members(pairs@)),
                    decreases pairs@.len() - i,
                {
                    let ghost rest = pairs@.skip(i as int);
                    assert(rest.drop_first() =~= pairs@.skip(i + 1));
                    assert(members(rest)[0] == (rest[0].0@, rest[0].1@));
                    assert(members(rest).drop_first() =~= members(rest.drop_first()));
                    if same_str(pairs[i].0.as_str(), key) {
                        return Some(&pairs[i].1);
                    }
                    i += 1;
                }
                assert(members(pairs@.skip(i as int)) =~= seq![]);
                None
            },
            _ => None,
        }
    }

    /// This value as a string, if it is one.
    pub fn as_str(&self) -> (r: Option<&str>)
        ensures
            match r {
                Some(text) => self@ == Json::Text(text@),
                None => !(self@ is Text),
            },
    {
        match self {
            Value::String(text) => Some(text.as_str()),
            _ => None,
        }
    }

    /// The string at a path of object keys, if every step exists.
    pub fn path_str(&self, path: &[&str]) -> (r: Option<&str>)
        ensures
            match r {
                Some(text) => text_at(self@, words(path@)) == Some(text@),
                None => text_at(self@, words(path@)) is None,
            },
    {
        let mut current = self;
        let ghost all = words(path@);
        let mut i: usize = 0;
        assert(all.skip(0) =~= all);
        while i < path.len()
            invariant
                i <= path@.len(),
                all == words(path@),
                text_at(current@, all.skip(i as int)) == text_at(self@, all),
            decreases path@.len() - i,
        {
            assert(all.skip(i as int)[0] == path@[i as int]@);
            assert(all.skip(i as int).drop_first() =~= all.skip(i + 1));
            match current.get(path[i]) {
                Some(inner) => {
                    current = inner;
                },
                None => {
                    return None;
                },
            }
            i += 1;
        }
        current.as_str()
    }
}

// ---------------------------------------------------------------------------
// What parsing promises.
// ---------------------------------------------------------------------------

/// Whether a text is a number and nothing more.
pub open spec fn is_number(text: Seq<char>) -> bool {
    text.len() > 0 && (text[0] == '-' || is_digit(text[0])) && read_number(text, 0) == Read::Found(
        Json::Number(text),
        text.len() as int,
    )
}

/// Whether every number in a value is one.
pub open spec fn is_valid(json: Json) -> bool
    decreases json,
{
    match json {
        Json::Number(text) => is_number(text),
        Json::Array(items) => are_valid(items),
        Json::Object(pairs) => are_valid_members(pairs),
        _ => true,
    }
}

pub open spec fn are_valid(items: Seq<Json>) -> bool
    decreases items,
{
    items.len() == 0 || (is_valid(items[0]) && are_valid(items.drop_first()))
}

pub open spec fn are_valid_members(pairs: Seq<(Seq<char>, Json)>) -> bool
    decreases pairs,
{
    pairs.len() == 0 || (is_valid(pairs[0].1) && are_valid_members(pairs.drop_first()))
}

/// A value, written down with nothing between its tokens.
pub open spec fn written(json: Json) -> Seq<char>
    decreases json, 1nat,
{
    match json {
        Json::Null => "null"@,
        Json::Bool(true) => "true"@,
        Json::Bool(false) => "false"@,
        Json::Number(text) => text,
        Json::Text(text) => toml_quoted(text),
        Json::Array(items) => if items.len() == 0 {
            seq!['[', ']']
        } else {
            seq!['['] + written_items(items)
        },
        Json::Object(pairs) => if pairs.len() == 0 {
            seq!['{', '}']
        } else {
            seq!['{'] + written_members(pairs)
        },
    }
}

/// The items of an array, and its end.
pub open spec fn written_items(items: Seq<Json>) -> Seq<char>
    decreases items, 0nat,
{
    if items.len() == 0 {
        seq![']']
    } else {
        written(items[0]) + (if items.len() == 1 {
            seq![']']
        } else {
            seq![','] + written_items(items.drop_first())
        })
    }
}

/// The members of an object, and its end.
pub open spec fn written_members(pairs: Seq<(Seq<char>, Json)>) -> Seq<char>
    decreases pairs, 0nat,
{
    if pairs.len() == 0 {
        seq!['}']
    } else {
        toml_quoted(pairs[0].0) + seq![':'] + written(pairs[0].1) + (if pairs.len() == 1 {
            seq!['}']
        } else {
            seq![','] + written_members(pairs.drop_first())
        })
    }
}

/// Whether `text` stands in `s` from `at` on.
spec fn at_place(s: Seq<char>, at: int, text: Seq<char>) -> bool {
    0 <= at && at + text.len() <= s.len() && s.subrange(at, at + text.len()) == text
}

/// Whether a value can end at `at`: at the end of the text, or before what separates
/// values.
spec fn may_stop(s: Seq<char>, at: int) -> bool {
    at >= s.len() || s[at] == ',' || s[at] == ']' || s[at] == '}'
}

proof fn lemma_place_split(s: Seq<char>, at: int, a: Seq<char>, b: Seq<char>)
    requires
        at_place(s, at, a + b),
    ensures
        at_place(s, at, a),
        at_place(s, at + a.len(), b),
{
    let whole = s.subrange(at, at + (a + b).len());
    assert(s.subrange(at, at + a.len()) =~= whole.subrange(0, a.len() as int));
    assert(whole.subrange(0, a.len() as int) =~= a);
    assert(s.subrange(at + a.len(), at + a.len() + b.len()) =~= whole.subrange(
        a.len() as int,
        whole.len() as int,
    ));
    assert(whole.subrange(a.len() as int, whole.len() as int) =~= b);
}

proof fn lemma_place_at(s: Seq<char>, at: int, text: Seq<char>, i: int)
    requires
        at_place(s, at, text),
        0 <= i < text.len(),
    ensures
        s[at + i] == text[i],
        at + i < s.len(),
{
    assert(s.subrange(at, at + text.len())[i] == s[at + i]);
}

/// Where no white space stands, none is skipped.
proof fn lemma_no_blank(s: Seq<char>, at: int)
    requires
        0 <= at <= s.len(),
        at < s.len() ==> !Class::Blank.has(s[at]),
    ensures
        skip_blank(s, at) == at,
{
    lemma_leading_is(s.skip(at), Class::Blank, 0);
}

/// A run of digits ends where it ends, whatever the text around it.
proof fn lemma_digits_in_place(s: Seq<char>, at: int, text: Seq<char>, i: int)
    requires
        at_place(s, at, text),
        may_stop(s, at + text.len()),
        0 <= i <= text.len(),
    ensures
        skip_digits(s, at + i) == at + skip_digits(text, i),
        i <= skip_digits(text, i) <= text.len(),
{
    let inner = text.skip(i);
    let outer = s.skip(at + i);
    let n = leading(inner, Class::Digit);
    lemma_leading(inner, Class::Digit);
    assert forall|j: int| 0 <= j < n implies Class::Digit.has(outer[j]) by {
        lemma_place_at(s, at, text, i + j);
        assert(Class::Digit.has(inner[j]));
    }
    if n < outer.len() {
        if i + n < text.len() {
            lemma_place_at(s, at, text, i + n);
        }
    }
    lemma_leading_is(outer, Class::Digit, n);
}

proof fn lemma_stands_in_place(s: Seq<char>, at: int, text: Seq<char>, i: int, c: char)
    requires
        at_place(s, at, text),
        may_stop(s, at + text.len()),
        0 <= i <= text.len(),
        c != ',' && c != ']' && c != '}',
    ensures
        stands(s, at + i, c) == stands(text, i, c),
        digit_at(s, at + i) == digit_at(text, i),
{
    if i < text.len() {
        lemma_place_at(s, at, text, i);
    }
}

/// An exponent ends where it ends, whatever the text around it.
proof fn lemma_exponent_in_place(s: Seq<char>, at: int, text: Seq<char>, i: int)
    requires
        at_place(s, at, text),
        may_stop(s, at + text.len()),
        0 <= i <= text.len(),
    ensures
        read_exponent(text, i) matches Read::Found(_, end) ==> read_exponent(s, at + i)
            == Read::Found((), at + end),
{
    lemma_stands_in_place(s, at, text, i, 'e');
    lemma_stands_in_place(s, at, text, i, 'E');
    if stands(text, i, 'e') || stands(text, i, 'E') {
        lemma_stands_in_place(s, at, text, i + 1, '+');
        lemma_stands_in_place(s, at, text, i + 1, '-');
        if stands(text, i + 1, '+') || stands(text, i + 1, '-') {
            lemma_stands_in_place(s, at, text, i + 2, '0');
            lemma_digits_in_place(s, at, text, i + 2);
        } else {
            lemma_digits_in_place(s, at, text, i + 1);
        }
    }
}

/// A number is read whole, whatever the text around it.
proof fn lemma_number_in_place(s: Seq<char>, at: int, text: Seq<char>)
    requires
        at_place(s, at, text),
        may_stop(s, at + text.len()),
        is_number(text),
    ensures
        read_number(s, at) == Read::Found(Json::Number(text), at + text.len()),
{
    lemma_stands_in_place(s, at, text, 0, '-');
    let i: int = if stands(text, 0, '-') {
        1
    } else {
        0
    };
    lemma_stands_in_place(s, at, text, i, '0');
    let j: int = if stands(text, i, '0') {
        i + 1
    } else {
        skip_digits(text, i)
    };
    lemma_digits_in_place(s, at, text, i);
    assert(read_digits(text, i) is Found);
    lemma_stands_in_place(s, at, text, j, '.');
    if stands(text, j, '.') {
        lemma_stands_in_place(s, at, text, j + 1, '0');
        lemma_digits_in_place(s, at, text, j + 1);
        lemma_exponent_in_place(s, at, text, skip_digits(text, j + 1));
    } else {
        lemma_exponent_in_place(s, at, text, j);
    }
}

/// One escaped character is read as the character it stands for.
proof fn lemma_char_in_place(s: Seq<char>, at: int, c: char, text: Seq<char>)
    requires
        at_place(s, at, toml_char(c)),
        at + toml_char(c).len() < s.len(),
    ensures
        read_body(s, at, text) == read_body(s, at + toml_char(c).len(), text.push(c)),
{
    let spelled = toml_char(c);
    lemma_place_at(s, at, spelled, 0);
    if spelled.len() > 1 {
        lemma_place_at(s, at, spelled, 1);
    }
    if spelled.len() == 6 {
        lemma_place_at(s, at, spelled, 2);
        lemma_place_at(s, at, spelled, 3);
        lemma_place_at(s, at, spelled, 4);
        lemma_place_at(s, at, spelled, 5);
        lemma_byte_len_bounds(s.skip(at + 2));
        let high = (c as u32 / 16) as nat;
        let low = (c as u32 % 16) as nat;
        assert(is_hex(hex_char(high, 65)) && hex_digit(hex_char(high, 65)) == high);
        assert(is_hex(hex_char(low, 65)) && hex_digit(hex_char(low, 65)) == low);
        assert(is_hex('0') && hex_digit('0') == 0);
        assert(read_hex4(s, at + 2) == Read::Found((c as u32) as nat, at + 6));
        vstd::utf8::char_u32_cast(c, c as u32);
        assert(read_unicode(s, at + 2) == Read::Found(c, at + 6));
        assert(read_escape(s, at + 1) == Read::Found(c, at + 6));
    }
}

/// The rest of a quoted text is read back.
proof fn lemma_body_in_place(s: Seq<char>, at: int, rest: Seq<char>, text: Seq<char>)
    requires
        at_place(s, at, toml_body(rest) + seq!['"']),
    ensures
        read_body(s, at, text) == Read::Found(text + rest, at + toml_body(rest).len() + 1),
    decreases rest.len(),
{
    if rest.len() == 0 {
        assert(toml_body(rest) + seq!['"'] =~= seq!['"']);
        lemma_place_at(s, at, seq!['"'], 0);
        assert(text + rest =~= text);
    } else {
        let c = rest[0];
        let more = rest.drop_first();
        assert(toml_body(rest) + seq!['"'] =~= toml_char(c) + (toml_body(more) + seq!['"']));
        lemma_place_split(s, at, toml_char(c), toml_body(more) + seq!['"']);
        lemma_char_in_place(s, at, c, text);
        lemma_body_in_place(s, at + toml_char(c).len(), more, text.push(c));
        assert(text.push(c) + more =~= text + rest);
    }
}

/// A quoted text is read back.
proof fn lemma_string_in_place(s: Seq<char>, at: int, text: Seq<char>)
    requires
        at_place(s, at, toml_quoted(text)),
    ensures
        read_string(s, at) == Read::Found(text, at + toml_quoted(text).len()),
{
    let body = toml_body(text) + seq!['"'];
    assert(toml_quoted(text) =~= seq!['"'] + body);
    lemma_place_split(s, at, seq!['"'], body);
    lemma_place_at(s, at, seq!['"'], 0);
    lemma_body_in_place(s, at + 1, text, seq![]);
    assert(seq![] + text =~= text);
}

/// What a value is written with is something a value begins with.
proof fn lemma_written_begins(json: Json)
    requires
        is_valid(json),
    ensures
        written(json).len() > 0,
        !Class::Blank.has(written(json)[0]),
        written(json)[0] != ']',
        written(json)[0] != '}',
{
    reveal_strlit("null");
    reveal_strlit("true");
    reveal_strlit("false");
}

/// A written value is read back, wherever it stands.
proof fn lemma_value_in_place(s: Seq<char>, at: int, json: Json)
    requires
        is_valid(json),
        at_place(s, at, written(json)),
        may_stop(s, at + written(json).len()),
    ensures
        read_value(s, at) == Read::Found(json, at + written(json).len()),
    decreases json, 1nat,
{
    lemma_written_begins(json);
    lemma_place_at(s, at, written(json), 0);
    match json {
        Json::Null => {
            reveal_strlit("null");
        },
        Json::Bool(b) => {
            reveal_strlit("true");
            reveal_strlit("false");
        },
        Json::Number(text) => {
            lemma_number_in_place(s, at, text);
        },
        Json::Text(text) => {
            lemma_string_in_place(s, at, text);
        },
        Json::Array(items) => {
            if items.len() == 0 {
                assert(written(json) =~= seq!['['] + seq![']']);
                lemma_place_split(s, at, seq!['['], seq![']']);
                lemma_place_at(s, at + 1, seq![']'], 0);
                lemma_no_blank(s, at + 1);
                assert(items =~= seq![]);
            } else {
                lemma_place_split(s, at, seq!['['], written_items(items));
                lemma_items_in_place(s, at + 1, items, seq![]);
                lemma_written_begins(items[0]);
                lemma_place_at(s, at + 1, written_items(items), 0);
                lemma_no_blank(s, at + 1);
                assert(seq![] + items =~= items);
            }
        },
        Json::Object(pairs) => {
            if pairs.len() == 0 {
                assert(written(json) =~= seq!['{'] + seq!['}']);
                lemma_place_split(s, at, seq!['{'], seq!['}']);
                lemma_place_at(s, at + 1, seq!['}'], 0);
                lemma_no_blank(s, at + 1);
                assert(pairs =~= seq![]);
            } else {
                lemma_place_split(s, at, seq!['{'], written_members(pairs));
                lemma_members_in_place(s, at + 1, pairs, seq![]);
                lemma_place_at(s, at + 1, written_members(pairs), 0);
                assert(written_members(pairs)[0] == '"');
                lemma_no_blank(s, at + 1);
                assert(seq![] + pairs =~= pairs);
            }
        },
    }
}

proof fn lemma_items_in_place(s: Seq<char>, at: int, items: Seq<Json>, done: Seq<Json>)
    requires
        items.len() > 0,
        are_valid(items),
        at_place(s, at, written_items(items)),
    ensures
        read_items(s, at, done) == Read::Found(
            Json::Array(done + items),
            at + written_items(items).len(),
        ),
    decreases items, 0nat,
{
    let first = written(items[0]);
    let rest = items.drop_first();
    let tail = if items.len() == 1 {
        seq![']']
    } else {
        seq![','] + written_items(rest)
    };
    lemma_written_begins(items[0]);
    lemma_place_split(s, at, first, tail);
    let next = at + first.len();
    lemma_place_at(s, next, tail, 0);
    lemma_value_in_place(s, at, items[0]);
    lemma_no_blank(s, next);
    if items.len() == 1 {
        assert(done.push(items[0]) =~= done + items);
    } else {
        lemma_place_split(s, next, seq![','], written_items(rest));
        assert(are_valid(rest));
        assert(is_valid(rest[0]));
        lemma_written_begins(rest[0]);
        lemma_place_at(s, next + 1, written_items(rest), 0);
        lemma_no_blank(s, next + 1);
        lemma_items_in_place(s, next + 1, rest, done.push(items[0]));
        assert(done.push(items[0]) + rest =~= done + items);
    }
}

/// Where the parts of a member stand, and that no white space stands between them.
proof fn lemma_member_places(
    s: Seq<char>,
    at: int,
    key: Seq<char>,
    value: Seq<char>,
    tail: Seq<char>,
)
    requires
        at_place(s, at, key + seq![':'] + value + tail),
        value.len() > 0,
        !Class::Blank.has(value[0]),
        tail.len() > 0,
        !Class::Blank.has(tail[0]),
    ensures
        ({
            let colon = at + key.len();
            let start = colon + 1;
            let next = start + value.len();
            &&& at_place(s, at, key)
            &&& at_place(s, start, value)
            &&& at_place(s, next, tail)
            &&& next < s.len()
            &&& s[colon] == ':'
            &&& s[start] == value[0]
            &&& s[next] == tail[0]
            &&& skip_blank(s, colon) == colon
            &&& skip_blank(s, start) == start
            &&& skip_blank(s, next) == next
        }),
{
    let colon = at + key.len();
    let start = colon + 1;
    let next = start + value.len();
    lemma_place_split(s, at, key + seq![':'] + value, tail);
    lemma_place_split(s, at, key + seq![':'], value);
    lemma_place_split(s, at, key, seq![':']);
    lemma_place_at(s, colon, seq![':'], 0);
    lemma_place_at(s, start, value, 0);
    lemma_place_at(s, next, tail, 0);
    lemma_no_blank(s, colon);
    lemma_no_blank(s, start);
    lemma_no_blank(s, next);
}

proof fn lemma_members_in_place(
    s: Seq<char>,
    at: int,
    pairs: Seq<(Seq<char>, Json)>,
    done: Seq<(Seq<char>, Json)>,
)
    requires
        pairs.len() > 0,
        are_valid_members(pairs),
        at_place(s, at, written_members(pairs)),
    ensures
        read_members(s, at, done) == Read::Found(
            Json::Object(done + pairs),
            at + written_members(pairs).len(),
        ),
    decreases pairs, 0nat,
{
    let key = toml_quoted(pairs[0].0);
    let value = written(pairs[0].1);
    let rest = pairs.drop_first();
    let tail = if pairs.len() == 1 {
        seq!['}']
    } else {
        seq![','] + written_members(rest)
    };
    let start = at + key.len() + 1;
    let next = start + value.len();
    lemma_written_begins(pairs[0].1);
    lemma_member_places(s, at, key, value, tail);
    lemma_string_in_place(s, at, pairs[0].0);
    lemma_value_in_place(s, start, pairs[0].1);
    if pairs.len() == 1 {
        assert(done.push(pairs[0]) =~= done + pairs);
    } else {
        lemma_place_split(s, next, seq![','], written_members(rest));
        lemma_place_at(s, next + 1, written_members(rest), 0);
        assert(written_members(rest)[0] == '"');
        lemma_no_blank(s, next + 1);
        lemma_members_in_place(s, next + 1, rest, done.push(pairs[0]));
        assert(done.push(pairs[0]) + rest =~= done + pairs);
    }
}

/// Every value can be read: what is written of one is read back as just that value, so
/// no text inside it, whatever braces, quotes and line feeds it holds, is ever
/// corrupted.
pub proof fn law_what_is_written_is_read_back(json: Json)
    requires
        is_valid(json),
    ensures
        document(written(json)) == Read::Found(json, written(json).len() as int),
{
    let s = written(json);
    assert(s.subrange(0, s.len() as int) =~= s);
    lemma_written_begins(json);
    lemma_no_blank(s, 0);
    lemma_value_in_place(s, 0, json);
    lemma_no_blank(s, s.len() as int);
}

// ---------------------------------------------------------------------------
// Finding a member, and reading what others write.
// ---------------------------------------------------------------------------

/// The text of a member is found by its name, wherever among the members it stands and
/// however deep; the first of a name counts, and what is no text, or is not there, is not
/// found.
pub proof fn law_a_member_is_found_by_its_name(
    before: Seq<(Seq<char>, Json)>,
    key: Seq<char>,
    value: Json,
    after: Seq<(Seq<char>, Json)>,
    path: Seq<Seq<char>>,
)
    requires
        forall|i: int| 0 <= i < before.len() ==> (#[trigger] before[i]).0 != key,
    ensures
        text_at(Json::Object(before + (seq![(key, value)] + after)), seq![key] + path) == text_at(
            value,
            path,
        ),
        text_at(Json::Object(before), seq![key] + path) is None,
        path.len() == 0 ==> text_at(value, path) == (match value {
            Json::Text(text) => Some(text),
            _ => None,
        }),
        path.len() > 0 && !(value is Object) ==> text_at(value, path) is None,
{
    let keys = seq![key] + path;
    assert(keys[0] == key);
    assert(keys.drop_first() =~= path);
    lemma_first_with(before, key, value, after);
}

proof fn lemma_first_with(
    before: Seq<(Seq<char>, Json)>,
    key: Seq<char>,
    value: Json,
    after: Seq<(Seq<char>, Json)>,
)
    requires
        forall|i: int| 0 <= i < before.len() ==> (#[trigger] before[i]).0 != key,
    ensures
        first_with(before + (seq![(key, value)] + after), key) == Some(value),
        first_with(before, key) is None,
    decreases before.len(),
{
    let all = before + (seq![(key, value)] + after);
    if before.len() == 0 {
        assert(all[0] == (key, value));
    } else {
        let rest = before.drop_first();
        assert(before[0].0 != key);
        assert forall|i: int| 0 <= i < rest.len() implies (#[trigger] rest[i]).0 != key by {
            assert(rest[i] == before[i + 1]);
        }
        lemma_first_with(rest, key, value, after);
        assert(all[0] == before[0]);
        assert(all.drop_first() =~= rest + (seq![(key, value)] + after));
    }
}

/// An escape stands for its character: the short ones for a quote, a backslash, a slash and
/// the characters that steer a line, and one of four hexadecimal digits for the character
/// of that number.
pub proof fn law_an_escape_stands_for_its_character(s: Seq<char>, at: int)
    requires
        0 <= at < s.len(),
    ensures
        s[at] == '"' || s[at] == '\\' || s[at] == '/' ==> read_escape(s, at) == Read::Found(
            s[at],
            at + 1,
        ),
        s[at] == 'n' ==> read_escape(s, at) == Read::Found('\n', at + 1),
        s[at] == 't' ==> read_escape(s, at) == Read::Found('\t', at + 1),
        s[at] == 'r' ==> read_escape(s, at) == Read::Found('\r', at + 1),
        s[at] == 'b' ==> read_escape(s, at) == Read::Found('\u{8}', at + 1),
        s[at] == 'f' ==> read_escape(s, at) == Read::Found('\u{c}', at + 1),
        s[at] != '"' && s[at] != '\\' && s[at] != '/' && s[at] != 'n' && s[at] != 't' && s[at]
            != 'r' && s[at] != 'b' && s[at] != 'f' && s[at] != 'u' ==> read_escape(s, at) is Fault,
{
}

/// Nothing but blanks stands around the value of a document.
pub proof fn law_nothing_stands_behind_a_document(s: Seq<char>, end: int, value: Json)
    requires
        read_value(s, skip_blank(s, 0)) == Read::Found(value, end),
        0 <= end <= s.len(),
    ensures
        document(s) is Found <==> forall|i: int|
            end <= i < s.len() ==> (#[trigger] s[i] == ' ' || s[i] == '\t' || s[i] == '\n' || s[i]
                == '\r'),
        document(s) is Found ==> document(s) == Read::Found(value, s.len() as int),
{
    let rest = s.skip(end);
    lemma_leading(rest, Class::Blank);
    let n = leading(rest, Class::Blank);
    if n == rest.len() {
        assert forall|i: int| end <= i < s.len() implies (#[trigger] s[i] == ' ' || s[i] == '\t'
            || s[i] == '\n' || s[i] == '\r') by {
            assert(Class::Blank.has(rest[i - end]));
        }
    } else {
        assert(!Class::Blank.has(rest[n as int]));
        assert(rest[n as int] == s[end + n]);
    }
}

/// A control character in a text is refused, wherever it stands.
pub proof fn law_a_control_character_is_refused(
    front: Seq<char>,
    control: char,
    back: Seq<char>,
    text: Seq<char>,
)
    requires
        forall|i: int|
            0 <= i < front.len() ==> (#[trigger] front[i]) as u32 >= 0x20 && front[i] != '"'
                && front[i] != '\\',
        (control as u32) < 0x20,
    ensures
        read_body(front + seq![control] + back, 0, text) is Fault,
{
    lemma_control_refused(front + seq![control] + back, 0, front.len() as int, text);
}

proof fn lemma_control_refused(s: Seq<char>, at: int, stop: int, text: Seq<char>)
    requires
        0 <= at <= stop < s.len(),
        forall|i: int|
            at <= i < stop ==> (#[trigger] s[i]) as u32 >= 0x20 && s[i] != '"' && s[i] != '\\',
        (s[stop] as u32) < 0x20,
    ensures
        read_body(s, at, text) is Fault,
    decreases stop - at,
{
    if at < stop {
        lemma_control_refused(s, at + 1, stop, text.push(s[at]));
    }
}

/// A number escape stands for the character of that number; two surrogates stand together
/// for one beyond the first plane, and one alone for none.
pub proof fn law_a_number_escape_stands_for_its_character(
    s: Seq<char>,
    at: int,
    first: nat,
    second: nat,
)
    requires
        read_hex4(s, at) == Read::Found(first, at + 4),
        first < 0x10000,
    ensures
        first < 0xD800 || first > 0xDFFF ==> (read_unicode(s, at) matches Read::Found(c, next)
            && c as u32 == first && next == at + 4),
        0xDC00 <= first <= 0xDFFF ==> read_unicode(s, at) is Fault,
        0xD800 <= first <= 0xDBFF && !occurs_at(s, "\\u"@, at + 4) ==> read_unicode(s, at) is Fault,
        0xD800 <= first <= 0xDBFF && occurs_at(s, "\\u"@, at + 4) && read_hex4(s, at + 6)
            == Read::Found(second, at + 10) && 0xDC00 <= second <= 0xDFFF ==> (read_unicode(s, at)
            matches Read::Found(c, next) && c as u32 == 0x10000 + 0x400 * (first - 0xD800) + (second
            - 0xDC00) && next == at + 10),
{
}

/// A number with a zero in front ends behind the zero.
pub proof fn law_a_zero_in_front_is_a_number(s: Seq<char>, at: int)
    requires
        0 <= at,
        at + 1 < s.len(),
        s[at] == '0',
        is_digit(s[at + 1]),
    ensures
        read_number(s, at) == Read::Found(Json::Number(seq!['0']), at + 1),
{
    assert(read_digits(s, at) == Read::Found((), at + 1));
    assert(s.subrange(at, at + 1) =~= seq!['0']);
}

} // verus!

//! Text as sequences of characters.
//!
//! Everything this crate decides, it decides about text: lines, prefixes, paths,
//! columns. The functions here work on slices of `char`, whose view is the same
//! `Seq<char>` that `str` and `String` have, so a contract reads the same
//! whichever of the three a value is held in.
use vstd::prelude::*;
use vstd::slice::slice_subrange;
use vstd::utf8::encode_scalar;
use vstd::utf8::encode_utf8;

verus! {

/// `String::push`, which appends one character to the end of a string and
/// changes nothing else.
pub assume_specification[ std::string::String::push ](s: &mut std::string::String, ch: char)
    ensures
        final(s)@ == old(s)@.push(ch),
;

// ---------------------------------------------------------------------------
// Character classes.
// ---------------------------------------------------------------------------

/// Whether `c` has the Unicode property `White_Space`, which is what the
/// trimming functions trim.
pub open spec fn is_whitespace(c: char) -> bool {
    let u = c as u32;
    ||| 0x09 <= u <= 0x0D
    ||| u == 0x20
    ||| u == 0x85
    ||| u == 0xA0
    ||| u == 0x1680
    ||| 0x2000 <= u <= 0x200A
    ||| u == 0x2028
    ||| u == 0x2029
    ||| u == 0x202F
    ||| u == 0x205F
    ||| u == 0x3000
}

pub open spec fn is_digit(c: char) -> bool {
    '0' <= c <= '9'
}

pub open spec fn is_hex(c: char) -> bool {
    is_digit(c) || 'a' <= c <= 'f' || 'A' <= c <= 'F'
}

/// What a hexadecimal digit is worth.
pub open spec fn hex_digit(c: char) -> nat {
    if is_digit(c) {
        (c as u32 - 48) as nat
    } else if 'a' <= c <= 'f' {
        (c as u32 - 97 + 10) as nat
    } else {
        (c as u32 - 65 + 10) as nat
    }
}

pub open spec fn is_ascii_alphanumeric(c: char) -> bool {
    is_digit(c) || 'a' <= c <= 'z' || 'A' <= c <= 'Z'
}

/// A set of characters that a run of text can be made of.
#[derive(Clone, Copy, PartialEq, Eq, Structural, Debug)]
pub enum Class {
    /// Unicode white space.
    Whitespace,
    /// The ASCII space alone.
    Space,
    /// An ASCII digit.
    Digit,
    /// An ASCII digit or a space: what stands left of a snippet's bar.
    Margin,
    /// A hexadecimal digit.
    Hex,
    /// Anything but a line feed.
    LineBody,
    /// Anything but a path separator.
    SegmentBody,
    /// The path separator alone.
    Separator,
    /// Anything that does not delimit a path in prose.
    PathBody,
    /// Anything but a colon.
    ColonFree,
    /// Anything but a full stop.
    DotFree,
    /// What JSON allows between tokens.
    Blank,
}

impl Class {
    pub open spec fn has(self, c: char) -> bool {
        match self {
            Class::Whitespace => is_whitespace(c),
            Class::Space => c == ' ',
            Class::Digit => is_digit(c),
            Class::Margin => c == ' ' || is_digit(c),
            Class::Hex => is_hex(c),
            Class::LineBody => c != '\n',
            Class::SegmentBody => c != '/',
            Class::Separator => c == '/',
            Class::PathBody => !(is_whitespace(c) || c == '`' || c == '"' || c == '\'' || c == '('
                || c == '<' || c == '='),
            Class::ColonFree => c != ':',
            Class::DotFree => c != '.',
            Class::Blank => c == ' ' || c == '\t' || c == '\n' || c == '\r',
        }
    }

    pub fn contains(self, c: char) -> (r: bool)
        ensures
            r == self.has(c),
    {
        match self {
            Class::Whitespace => whitespace(c),
            Class::Space => c == ' ',
            Class::Digit => '0' <= c && c <= '9',
            Class::Margin => c == ' ' || ('0' <= c && c <= '9'),
            Class::Hex => ('0' <= c && c <= '9') || ('a' <= c && c <= 'f') || ('A' <= c && c
                <= 'F'),
            Class::LineBody => c != '\n',
            Class::SegmentBody => c != '/',
            Class::Separator => c == '/',
            Class::PathBody => !(whitespace(c) || c == '`' || c == '"' || c == '\'' || c == '('
                || c == '<' || c == '='),
            Class::ColonFree => c != ':',
            Class::DotFree => c != '.',
            Class::Blank => c == ' ' || c == '\t' || c == '\n' || c == '\r',
        }
    }
}

/// Whether `c` is Unicode white space.
pub fn whitespace(c: char) -> (r: bool)
    ensures
        r == is_whitespace(c),
{
    let u: u32 = c as u32;
    (0x09 <= u && u <= 0x0D) || u == 0x20 || u == 0x85 || u == 0xA0 || u == 0x1680 || (0x2000 <= u
        && u <= 0x200A) || u == 0x2028 || u == 0x2029 || u == 0x202F || u == 0x205F || u == 0x3000
}

pub fn ascii_alphanumeric(c: char) -> (r: bool)
    ensures
        r == is_ascii_alphanumeric(c),
{
    ('0' <= c && c <= '9') || ('a' <= c && c <= 'z') || ('A' <= c && c <= 'Z')
}

/// `c` with an ASCII lowercase letter raised to uppercase.
pub open spec fn upper(c: char) -> char {
    if 'a' <= c <= 'z' {
        ((c as u32 - 32) as u8) as char
    } else {
        c
    }
}

/// `c` with an ASCII uppercase letter lowered to lowercase.
pub open spec fn lower(c: char) -> char {
    if 'A' <= c <= 'Z' {
        ((c as u32 + 32) as u8) as char
    } else {
        c
    }
}

pub fn ascii_upper(c: char) -> (r: char)
    ensures
        r == upper(c),
{
    if 'a' <= c && c <= 'z' {
        ((c as u32 - 32) as u8) as char
    } else {
        c
    }
}

pub fn ascii_lower(c: char) -> (r: char)
    ensures
        r == lower(c),
{
    if 'A' <= c && c <= 'Z' {
        ((c as u32 + 32) as u8) as char
    } else {
        c
    }
}

// ---------------------------------------------------------------------------
// Conversions and comparison.
// ---------------------------------------------------------------------------

/// The characters of each text in a list.
pub open spec fn texts(list: Seq<Vec<char>>) -> Seq<Seq<char>> {
    list.map_values(|t: Vec<char>| t@)
}

/// The characters of each string in a list.
pub open spec fn strings(list: Seq<String>) -> Seq<Seq<char>> {
    list.map_values(|t: String| t@)
}

/// The characters of each word in a list.
pub open spec fn words(list: Seq<&str>) -> Seq<Seq<char>> {
    list.map_values(|t: &str| t@)
}

/// The characters of a string.
pub fn chars_of(s: &str) -> (r: Vec<char>)
    ensures
        r@ == s@,
{
    let mut out: Vec<char> = Vec::new();
    for c in it: s.chars()
        invariant
            it.seq() == s@,
            out@ == s@.take(it.index() as int),
    {
        assert(s@.take(it.index() as int).push(c) =~= s@.take(it.index() + 1));
        out.push(c);
    }
    assert(s@.take(s@.len() as int) =~= s@);
    out
}

/// The string made of `chars`.
pub fn string_of(chars: &[char]) -> (r: String)
    ensures
        r@ == chars@,
{
    let mut out: String = String::new();
    let mut i: usize = 0;
    while i < chars.len()
        invariant
            i <= chars@.len(),
            out@ == chars@.take(i as int),
        decreases chars@.len() - i,
    {
        assert(chars@.take(i as int).push(chars@[i as int]) =~= chars@.take(i + 1));
        out.push(chars[i]);
        i += 1;
    }
    assert(chars@.take(i as int) =~= chars@);
    out
}

/// Append `more` to `out`.
pub fn push_chars(out: &mut Vec<char>, more: &[char])
    ensures
        final(out)@ == old(out)@ + more@,
{
    let mut i: usize = 0;
    while i < more.len()
        invariant
            i <= more@.len(),
            out@ == old(out)@ + more@.take(i as int),
        decreases more@.len() - i,
    {
        assert(more@.take(i as int).push(more@[i as int]) =~= more@.take(i + 1));
        out.push(more[i]);
        i += 1;
    }
    assert(more@.take(i as int) =~= more@);
}

/// Append the characters of `more` to `out`.
pub fn push_text(out: &mut Vec<char>, more: &str)
    ensures
        final(out)@ == old(out)@ + more@,
{
    let chars = chars_of(more);
    push_chars(out, chars.as_slice());
}

/// A copy of `s`.
pub fn copy_of(s: &[char]) -> (r: Vec<char>)
    ensures
        r@ == s@,
{
    let mut out: Vec<char> = Vec::new();
    push_chars(&mut out, s);
    assert(out@ =~= s@);
    out
}

/// Whether two texts are the same.
pub fn same(a: &[char], b: &[char]) -> (r: bool)
    ensures
        r == (a@ == b@),
{
    if a.len() != b.len() {
        return false;
    }
    let mut i: usize = 0;
    while i < a.len()
        invariant
            i <= a@.len(),
            a@.len() == b@.len(),
            forall|k: int| 0 <= k < i ==> a@[k] == b@[k],
        decreases a@.len() - i,
    {
        if a[i] != b[i] {
            return false;
        }
        i += 1;
    }
    assert(a@ =~= b@);
    true
}

/// Whether `s` is exactly `word`.
pub fn is_word(s: &[char], word: &str) -> (r: bool)
    ensures
        r == (s@ == word@),
{
    let chars = chars_of(word);
    same(s, chars.as_slice())
}

/// Whether two strings hold the same text.
pub fn same_str(a: &str, b: &str) -> (r: bool)
    ensures
        r == (a@ == b@),
{
    let a = chars_of(a);
    is_word(a.as_slice(), b)
}

/// Whether two texts are the same but for the case of ASCII letters.
pub open spec fn same_but_for_case(a: Seq<char>, b: Seq<char>) -> bool {
    a.len() == b.len() && forall|i: int|
        0 <= i < a.len() ==> lower(#[trigger] a[i]) == lower(b[i])
}

/// Whether two texts are the same but for the case of ASCII letters.
pub fn is_same_but_for_case(a: &str, b: &str) -> (r: bool)
    ensures
        r == same_but_for_case(a@, b@),
{
    let left = chars_of(a);
    let right = chars_of(b);
    if left.len() != right.len() {
        return false;
    }
    let mut i: usize = 0;
    while i < left.len()
        invariant
            i <= left@.len(),
            left@ == a@,
            right@ == b@,
            left@.len() == right@.len(),
            forall|k: int| 0 <= k < i ==> lower(#[trigger] left@[k]) == lower(right@[k]),
        decreases left@.len() - i,
    {
        if ascii_lower(left[i]) != ascii_lower(right[i]) {
            assert(lower(left@[i as int]) != lower(right@[i as int]));
            return false;
        }
        i += 1;
    }
    true
}

// ---------------------------------------------------------------------------
// Order.
// ---------------------------------------------------------------------------

/// Whether `a` comes before `b` in the order of strings: by the first character
/// in which they differ, and a text before any longer one that begins with it.
pub open spec fn precedes(a: Seq<char>, b: Seq<char>) -> bool
    decreases a.len(),
{
    if b.len() == 0 {
        false
    } else if a.len() == 0 {
        true
    } else if a[0] == b[0] {
        precedes(a.drop_first(), b.drop_first())
    } else {
        a[0] < b[0]
    }
}

/// No text comes before itself, and of two different texts one comes first.
pub proof fn lemma_precedes_total(a: Seq<char>, b: Seq<char>)
    ensures
        !(precedes(a, b) && precedes(b, a)),
        a == b ==> !precedes(a, b),
        a != b ==> precedes(a, b) || precedes(b, a),
    decreases a.len(),
{
    if a.len() > 0 && b.len() > 0 {
        lemma_precedes_total(a.drop_first(), b.drop_first());
        if a[0] == b[0] && a.drop_first() == b.drop_first() {
            assert(a =~= seq![a[0]] + a.drop_first());
            assert(b =~= seq![b[0]] + b.drop_first());
        }
    } else if a.len() == 0 && b.len() == 0 {
        assert(a =~= b);
    }
}

pub proof fn lemma_precedes_transitive(a: Seq<char>, b: Seq<char>, c: Seq<char>)
    requires
        precedes(a, b),
        precedes(b, c),
    ensures
        precedes(a, c),
    decreases a.len(),
{
    if a.len() > 0 && b.len() > 0 && c.len() > 0 && a[0] == b[0] && b[0] == c[0] {
        lemma_precedes_transitive(a.drop_first(), b.drop_first(), c.drop_first());
    }
}

/// Whether `a` comes before `b` in the order of strings.
pub fn comes_before(a: &[char], b: &[char]) -> (r: bool)
    ensures
        r == precedes(a@, b@),
{
    let mut i: usize = 0;
    assert(a@.skip(0) =~= a@);
    assert(b@.skip(0) =~= b@);
    while i < a.len() && i < b.len() && a[i] == b[i]
        invariant
            i <= a@.len(),
            i <= b@.len(),
            precedes(a@, b@) == precedes(a@.skip(i as int), b@.skip(i as int)),
        decreases a@.len() - i,
    {
        assert(a@.skip(i as int).drop_first() =~= a@.skip(i + 1));
        assert(b@.skip(i as int).drop_first() =~= b@.skip(i + 1));
        i += 1;
    }
    if i == b.len() {
        false
    } else if i == a.len() {
        true
    } else {
        a[i] < b[i]
    }
}

// ---------------------------------------------------------------------------
// Prefixes, suffixes and searching.
// ---------------------------------------------------------------------------

/// Whether `pat` stands in `s` at position `k`.
pub open spec fn occurs_at(s: Seq<char>, pat: Seq<char>, k: int) -> bool {
    0 <= k && k + pat.len() <= s.len() && s.subrange(k, k + pat.len()) == pat
}

/// Whether `s` begins with `pat`.
pub open spec fn starts_with(s: Seq<char>, pat: Seq<char>) -> bool {
    occurs_at(s, pat, 0)
}

/// Whether `s` ends with `pat`.
pub open spec fn ends_with(s: Seq<char>, pat: Seq<char>) -> bool {
    occurs_at(s, pat, s.len() - pat.len())
}

/// The first position at or after `from` where `pat` stands in `s`.
pub open spec fn find(s: Seq<char>, pat: Seq<char>, from: int) -> Option<int>
    decreases s.len() + 1 - from,
{
    if from < 0 || from + pat.len() > s.len() {
        None
    } else if occurs_at(s, pat, from) {
        Some(from)
    } else {
        find(s, pat, from + 1)
    }
}

/// Whether `pat` stands anywhere in `s`.
pub open spec fn has_text(s: Seq<char>, pat: Seq<char>) -> bool {
    exists|k: int| occurs_at(s, pat, k)
}

/// What `find` promises: the position it names is an occurrence, nothing before
/// it is one, and it only gives up where there is none.
pub proof fn lemma_find(s: Seq<char>, pat: Seq<char>, from: int)
    requires
        0 <= from,
    ensures
        match find(s, pat, from) {
            Some(k) => from <= k && occurs_at(s, pat, k) && (forall|j: int|
                from <= j < k ==> !occurs_at(s, pat, j)),
            None => forall|j: int| from <= j ==> !occurs_at(s, pat, j),
        },
    decreases s.len() + 1 - from,
{
    if from + pat.len() <= s.len() && !occurs_at(s, pat, from) {
        lemma_find(s, pat, from + 1);
    }
}

/// A text stands wherever it was put.
pub proof fn lemma_has_text(front: Seq<char>, pat: Seq<char>, back: Seq<char>)
    ensures
        has_text(front + pat + back, pat),
{
    let s = front + pat + back;
    let k = front.len() as int;
    assert(s.subrange(k, k + pat.len()) =~= pat);
    assert(occurs_at(s, pat, k));
}

/// Whether `pat` stands in `s` at position `k`.
pub fn stands_at(s: &[char], pat: &[char], k: usize) -> (r: bool)
    ensures
        r == occurs_at(s@, pat@, k as int),
{
    if k > s.len() || s.len() - k < pat.len() {
        return false;
    }
    same(slice_subrange(s, k, k + pat.len()), pat)
}

/// Whether `s` begins with `pat`.
pub fn has_prefix(s: &[char], pat: &str) -> (r: bool)
    ensures
        r == starts_with(s@, pat@),
{
    let pat = chars_of(pat);
    stands_at(s, pat.as_slice(), 0)
}

/// Whether `s` ends with `pat`.
pub fn has_suffix(s: &[char], pat: &str) -> (r: bool)
    ensures
        r == ends_with(s@, pat@),
{
    let pat = chars_of(pat);
    if s.len() < pat.len() {
        return false;
    }
    stands_at(s, pat.as_slice(), s.len() - pat.len())
}

/// The first position at or after `from` where `pat` stands in `s`.
pub fn position(s: &[char], pat: &[char], from: usize) -> (r: Option<usize>)
    ensures
        match r {
            Some(k) => find(s@, pat@, from as int) == Some(k as int),
            None => find(s@, pat@, from as int) is None,
        },
        r matches Some(k) ==> from <= k && k + pat@.len() <= s@.len(),
{
    let mut i: usize = from;
    while i <= s.len() && s.len() - i >= pat.len()
        invariant
            from <= i,
            find(s@, pat@, from as int) == find(s@, pat@, i as int),
        decreases s@.len() + 1 - i,
    {
        if stands_at(s, pat, i) {
            return Some(i);
        }
        assert(i < s@.len()) by {
            if i == s@.len() {
                assert(s@.subrange(i as int, i as int) =~= pat@);
            }
        }
        i += 1;
    }
    None
}

/// Whether `pat` stands anywhere in `s`.
pub fn includes(s: &[char], pat: &str) -> (r: bool)
    ensures
        r == has_text(s@, pat@),
{
    let pat = chars_of(pat);
    proof {
        lemma_find(s@, pat@, 0);
    }
    match position(s, pat.as_slice(), 0) {
        Some(k) => {
            assert(occurs_at(s@, pat@, k as int));
            true
        },
        None => {
            assert forall|k: int| !occurs_at(s@, pat@, k) by {
                if k >= 0 {
                }
            }
            false
        },
    }
}

// ---------------------------------------------------------------------------
// Runs at either end, and trimming.
// ---------------------------------------------------------------------------

/// How many characters at the front of `s` belong to `class`, counted up to the
/// first that does not.
pub open spec fn leading(s: Seq<char>, class: Class) -> nat
    decreases s.len(),
{
    if s.len() == 0 || !class.has(s[0]) {
        0
    } else {
        1 + leading(s.drop_first(), class)
    }
}

/// How many characters at the back of `s` belong to `class`, counted down to the
/// last that does not.
pub open spec fn trailing(s: Seq<char>, class: Class) -> nat
    decreases s.len(),
{
    if s.len() == 0 || !class.has(s.last()) {
        0
    } else {
        1 + trailing(s.drop_last(), class)
    }
}

/// `leading` by what it leaves: a run of the class, then the end or a stranger.
pub proof fn lemma_leading(s: Seq<char>, class: Class)
    ensures
        leading(s, class) <= s.len(),
        forall|i: int| 0 <= i < leading(s, class) ==> class.has(s[i]),
        leading(s, class) < s.len() ==> !class.has(s[leading(s, class) as int]),
    decreases s.len(),
{
    if s.len() > 0 && class.has(s[0]) {
        let rest = s.drop_first();
        lemma_leading(rest, class);
        assert forall|i: int| 0 <= i < leading(s, class) implies class.has(s[i]) by {
            if i > 0 {
                assert(rest[i - 1] == s[i]);
            }
        }
        if leading(s, class) < s.len() {
            assert(rest[leading(rest, class) as int] == s[leading(s, class) as int]);
        }
    }
}

/// The converse: a run of the class, then the end or a stranger, is `leading`.
pub proof fn lemma_leading_is(s: Seq<char>, class: Class, k: nat)
    requires
        k <= s.len(),
        forall|i: int| 0 <= i < k ==> class.has(s[i]),
        k < s.len() ==> !class.has(s[k as int]),
    ensures
        leading(s, class) == k,
    decreases s.len(),
{
    if k > 0 {
        lemma_leading_is(s.drop_first(), class, (k - 1) as nat);
    }
}

/// `trailing` by what it leaves: a run of the class, after the start or a
/// stranger.
pub proof fn lemma_trailing(s: Seq<char>, class: Class)
    ensures
        trailing(s, class) <= s.len(),
        forall|i: int| s.len() - trailing(s, class) <= i < s.len() ==> class.has(s[i]),
        trailing(s, class) < s.len() ==> !class.has(s[s.len() - trailing(s, class) - 1]),
    decreases s.len(),
{
    if s.len() > 0 && class.has(s.last()) {
        let rest = s.drop_last();
        lemma_trailing(rest, class);
        assert forall|i: int| s.len() - trailing(s, class) <= i < s.len() implies class.has(
            s[i],
        ) by {
            if i < rest.len() {
                assert(rest[i] == s[i]);
            }
        }
    }
}

/// The converse: a run of the class, after the start or a stranger, is
/// `trailing`.
pub proof fn lemma_trailing_is(s: Seq<char>, class: Class, k: nat)
    requires
        k <= s.len(),
        forall|i: int| s.len() - k <= i < s.len() ==> class.has(s[i]),
        k < s.len() ==> !class.has(s[s.len() - k - 1]),
    ensures
        trailing(s, class) == k,
    decreases s.len(),
{
    if k > 0 {
        lemma_trailing_is(s.drop_last(), class, (k - 1) as nat);
    }
}

pub fn count_leading(s: &[char], class: Class) -> (r: usize)
    ensures
        r == leading(s@, class),
        r <= s@.len(),
{
    let mut i: usize = 0;
    while i < s.len() && class.contains(s[i])
        invariant
            i <= s@.len(),
            forall|k: int| 0 <= k < i ==> class.has(s@[k]),
        decreases s@.len() - i,
    {
        i += 1;
    }
    proof {
        lemma_leading_is(s@, class, i as nat);
    }
    i
}

pub fn count_trailing(s: &[char], class: Class) -> (r: usize)
    ensures
        r == trailing(s@, class),
        r <= s@.len(),
{
    let mut i: usize = 0;
    while i < s.len() && class.contains(s[s.len() - 1 - i])
        invariant
            i <= s@.len(),
            forall|k: int| s@.len() - i <= k < s@.len() ==> class.has(s@[k]),
        decreases s@.len() - i,
    {
        i += 1;
    }
    proof {
        lemma_trailing_is(s@, class, i as nat);
    }
    i
}

/// `s` without the white space it begins with.
pub open spec fn trim_start(s: Seq<char>) -> Seq<char> {
    s.skip(leading(s, Class::Whitespace) as int)
}

/// `s` without the white space it ends with.
pub open spec fn trim_end(s: Seq<char>) -> Seq<char> {
    s.take(s.len() - trailing(s, Class::Whitespace))
}

/// `s` without white space at either end.
pub open spec fn trim(s: Seq<char>) -> Seq<char> {
    trim_end(trim_start(s))
}

/// The part of `s` after its first `k` characters.
pub fn after(s: &[char], k: usize) -> (r: &[char])
    requires
        k <= s@.len(),
    ensures
        r@ == s@.skip(k as int),
{
    slice_subrange(s, k, s.len())
}

/// The first `k` characters of `s`.
pub fn before(s: &[char], k: usize) -> (r: &[char])
    requires
        k <= s@.len(),
    ensures
        r@ == s@.take(k as int),
{
    slice_subrange(s, 0, k)
}

pub fn trimmed_start(s: &[char]) -> (r: &[char])
    ensures
        r@ == trim_start(s@),
        r@.len() <= s@.len(),
{
    after(s, count_leading(s, Class::Whitespace))
}

pub fn trimmed_end(s: &[char]) -> (r: &[char])
    ensures
        r@ == trim_end(s@),
{
    before(s, s.len() - count_trailing(s, Class::Whitespace))
}

pub fn trimmed(s: &[char]) -> (r: &[char])
    ensures
        r@ == trim(s@),
{
    trimmed_end(trimmed_start(s))
}

// ---------------------------------------------------------------------------
// Lines, segments, and putting pieces together.
// ---------------------------------------------------------------------------

/// A line without the carriage return that stood before its line feed.
pub open spec fn chomp(line: Seq<char>) -> Seq<char> {
    if line.len() > 0 && line.last() == '\r' {
        line.drop_last()
    } else {
        line
    }
}

/// The lines of `s`. A line ends at a line feed, with or without a carriage
/// return before it; the last one need not have an end at all.
pub open spec fn lines(s: Seq<char>) -> Seq<Seq<char>>
    decreases s.len(),
{
    let end = leading(s, Class::LineBody) as int;
    if s.len() == 0 {
        seq![]
    } else if end >= s.len() {
        seq![s]
    } else {
        seq![chomp(s.take(end))] + lines(s.skip(end + 1))
    }
}

/// The lines of `s`.
pub fn split_lines(s: &[char]) -> (r: Vec<Vec<char>>)
    ensures
        texts(r@) == lines(s@),
{
    let mut out: Vec<Vec<char>> = Vec::new();
    let mut at: usize = 0;
    assert(s@.skip(0) =~= s@);
    assert(texts(out@) + lines(s@) =~= lines(s@));
    while at < s.len()
        invariant
            at <= s@.len(),
            texts(out@) + lines(s@.skip(at as int)) == lines(s@),
        decreases s@.len() - at,
    {
        let rest = after(s, at);
        let end: usize = count_leading(rest, Class::LineBody);
        let ghost before_push = texts(out@);
        if end == rest.len() {
            out.push(copy_of(rest));
            assert(lines(rest@) =~= seq![rest@]);
            assert(texts(out@) =~= before_push + lines(rest@));
            return out;
        }
        let line = before(rest, end);
        if line.len() > 0 && line[line.len() - 1] == '\r' {
            let bare = before(line, line.len() - 1);
            assert(bare@ =~= line@.drop_last());
            out.push(copy_of(bare));
        } else {
            out.push(copy_of(line));
        }
        assert(texts(out@) =~= before_push + seq![chomp(rest@.take(end as int))]);
        assert(rest@.skip(end + 1) =~= s@.skip(at + end + 1));
        assert(texts(out@) + lines(s@.skip(at + end + 1)) =~= before_push + lines(rest@));
        at = at + end + 1;
    }
    assert(lines(s@.skip(at as int)) =~= seq![]);
    assert(texts(out@) =~= lines(s@));
    out
}

/// Each line, ended by a line feed.
pub open spec fn terminated(list: Seq<Seq<char>>) -> Seq<char>
    decreases list.len(),
{
    if list.len() == 0 {
        seq![]
    } else {
        list[0] + seq!['\n'] + terminated(list.drop_first())
    }
}

/// Whether a text can be one line among others: it holds no line feed, and no
/// carriage return that would be taken for part of its end.
pub open spec fn is_line(line: Seq<char>) -> bool {
    !line.contains('\n') && (line.len() == 0 || line.last() != '\r')
}

/// No line of a text holds a line feed.
pub proof fn lemma_lines_hold_no_feed(s: Seq<char>)
    ensures
        forall|i: int| 0 <= i < lines(s).len() ==> !(#[trigger] lines(s)[i]).contains('\n'),
    decreases s.len(),
{
    let end = leading(s, Class::LineBody) as int;
    lemma_leading(s, Class::LineBody);
    if s.len() > 0 && end < s.len() {
        lemma_lines_hold_no_feed(s.skip(end + 1));
        let first = chomp(s.take(end));
        assert forall|i: int| 0 <= i < lines(s).len() implies !(#[trigger] lines(s)[i]).contains(
            '\n',
        ) by {
            if i == 0 {
                assert forall|k: int| 0 <= k < first.len() implies first[k] != '\n' by {
                    assert(first[k] == s[k]);
                    assert(Class::LineBody.has(s[k]));
                }
            } else {
                assert(lines(s)[i] == lines(s.skip(end + 1))[i - 1]);
            }
        }
    } else if s.len() > 0 {
        assert forall|k: int| 0 <= k < s.len() implies s[k] != '\n' by {
            assert(Class::LineBody.has(s[k]));
        }
    }
}

/// Lines that are ended one by one are the lines of the text they make.
pub proof fn lemma_lines_of_terminated(list: Seq<Seq<char>>)
    requires
        forall|i: int| 0 <= i < list.len() ==> is_line(#[trigger] list[i]),
    ensures
        lines(terminated(list)) == list,
    decreases list.len(),
{
    let s = terminated(list);
    if list.len() == 0 {
        assert(lines(s) =~= list);
    } else {
        let rest = list.drop_first();
        assert forall|i: int| 0 <= i < rest.len() implies is_line(#[trigger] rest[i]) by {
            assert(rest[i] == list[i + 1]);
        }
        lemma_lines_of_terminated(rest);
        let end = list[0].len();
        assert(is_line(list[0]));
        assert forall|i: int| 0 <= i < end implies Class::LineBody.has(s[i]) by {
            assert(s[i] == list[0][i]);
        }
        assert(s[end as int] == '\n');
        lemma_leading_is(s, Class::LineBody, end);
        assert(s.take(end as int) =~= list[0]);
        assert(s.skip(end as int + 1) =~= terminated(rest));
        assert(lines(s) =~= list);
    }
}

/// The pieces of `s` between its path separators, empty ones included.
pub open spec fn segments(s: Seq<char>) -> Seq<Seq<char>>
    decreases s.len(),
{
    let end = leading(s, Class::SegmentBody) as int;
    if end >= s.len() {
        seq![s]
    } else {
        seq![s.take(end)] + segments(s.skip(end + 1))
    }
}

/// The pieces of `s` between its path separators.
pub fn split_segments(s: &[char]) -> (r: Vec<Vec<char>>)
    ensures
        texts(r@) == segments(s@),
        r@.len() >= 1,
{
    let mut out: Vec<Vec<char>> = Vec::new();
    let mut at: usize = 0;
    assert(s@.skip(0) =~= s@);
    assert(texts(out@) + segments(s@) =~= segments(s@));
    let len: usize = s.len();
    loop
        invariant
            at <= len,
            len == s@.len(),
            texts(out@) + segments(s@.skip(at as int)) == segments(s@),
        decreases s@.len() - at,
    {
        let rest = after(s, at);
        let end: usize = count_leading(rest, Class::SegmentBody);
        let ghost before_push = texts(out@);
        if end == rest.len() {
            out.push(copy_of(rest));
            assert(segments(rest@) =~= seq![rest@]);
            assert(texts(out@) =~= before_push + segments(rest@));
            return out;
        }
        out.push(copy_of(before(rest, end)));
        assert(texts(out@) =~= before_push + seq![rest@.take(end as int)]);
        assert(rest@.skip(end + 1) =~= s@.skip(at + end + 1));
        assert(texts(out@) + segments(s@.skip(at + end + 1)) =~= before_push + segments(rest@));
        at = at + end + 1;
    }
}

/// Each part with `sep` in front of it.
pub open spec fn separated(parts: Seq<Seq<char>>, sep: Seq<char>) -> Seq<char>
    decreases parts.len(),
{
    if parts.len() == 0 {
        seq![]
    } else {
        sep + parts[0] + separated(parts.drop_first(), sep)
    }
}

/// The parts in order, with `sep` between each and the next.
pub open spec fn join(parts: Seq<Seq<char>>, sep: Seq<char>) -> Seq<char> {
    if parts.len() == 0 {
        seq![]
    } else {
        parts[0] + separated(parts.drop_first(), sep)
    }
}

/// The parts in order, with nothing between them.
pub open spec fn concat(parts: Seq<Seq<char>>) -> Seq<char>
    decreases parts.len(),
{
    if parts.len() == 0 {
        seq![]
    } else {
        parts[0] + concat(parts.drop_first())
    }
}

/// The parts in order, with `sep` between each and the next.
pub fn joined(parts: &Vec<Vec<char>>, sep: &str) -> (r: Vec<char>)
    ensures
        r@ == join(texts(parts@), sep@),
{
    let mut out: Vec<char> = Vec::new();
    if parts.len() == 0 {
        return out;
    }
    let ghost all = texts(parts@);
    push_chars(&mut out, parts[0].as_slice());
    let mut i: usize = 1;
    assert(all.drop_first() =~= all.skip(1));
    while i < parts.len()
        invariant
            1 <= i <= parts@.len(),
            all == texts(parts@),
            out@ + separated(all.skip(i as int), sep@) =~= join(all, sep@),
        decreases parts@.len() - i,
    {
        assert(all.skip(i as int).drop_first() =~= all.skip(i + 1));
        assert(all.skip(i as int)[0] == parts@[i as int]@);
        push_text(&mut out, sep);
        push_chars(&mut out, parts[i].as_slice());
        i += 1;
    }
    out
}

/// The strings in order, with nothing between them.
pub fn concatenated(parts: &Vec<String>) -> (r: String)
    ensures
        r@ == concat(strings(parts@)),
{
    let mut out: String = String::new();
    let ghost all = strings(parts@);
    let mut i: usize = 0;
    assert(all.skip(0) =~= all);
    while i < parts.len()
        invariant
            i <= parts@.len(),
            all == strings(parts@),
            out@ + concat(all.skip(i as int)) =~= concat(all),
        decreases parts@.len() - i,
    {
        assert(all.skip(i as int).drop_first() =~= all.skip(i + 1));
        assert(all.skip(i as int)[0] == parts@[i as int]@);
        out.append(parts[i].as_str());
        i += 1;
    }
    out
}

/// `list` holds the text `s`.
pub fn holds(list: &Vec<String>, s: &str) -> (r: bool)
    ensures
        r == strings(list@).contains(s@),
{
    let mut i: usize = 0;
    while i < list.len()
        invariant
            i <= list@.len(),
            forall|k: int| 0 <= k < i ==> strings(list@)[k] != s@,
        decreases list@.len() - i,
    {
        if same_str(list[i].as_str(), s) {
            assert(strings(list@)[i as int] == s@);
            return true;
        }
        i += 1;
    }
    false
}

// ---------------------------------------------------------------------------
// Numbers.
// ---------------------------------------------------------------------------

/// The character for a digit below ten.
pub open spec fn digit(n: nat) -> char {
    ((48 + n) as u8) as char
}

/// `n` in decimal, without leading zeros.
pub open spec fn decimal(n: nat) -> Seq<char>
    decreases n,
{
    if n < 10 {
        seq![digit(n)]
    } else {
        decimal(n / 10).push(digit(n % 10))
    }
}

/// `n` in decimal.
pub fn to_decimal(n: usize) -> (r: Vec<char>)
    ensures
        r@ == decimal(n as nat),
    decreases n,
{
    if n < 10 {
        let mut out: Vec<char> = Vec::new();
        out.push((48 + n as u8) as char);
        assert(out@ =~= seq![digit(n as nat)]);
        out
    } else {
        let mut out = to_decimal(n / 10);
        out.push((48 + (n % 10) as u8) as char);
        out
    }
}

/// Different numbers read differently.
pub proof fn lemma_decimal_injective(a: nat, b: nat)
    ensures
        decimal(a) == decimal(b) ==> a == b,
        decimal(a).len() > 0,
    decreases a,
{
    let left = decimal(a);
    let right = decimal(b);
    if left == right {
        assert(left.last() == right.last());
        if a >= 10 && b >= 10 {
            assert(left.drop_last() =~= decimal(a / 10));
            assert(right.drop_last() =~= decimal(b / 10));
            lemma_decimal_injective(a / 10, b / 10);
            assert(digit(a % 10) == digit(b % 10));
        } else if a >= 10 {
            lemma_decimal_injective(a / 10, 0);
            assert(left.len() == decimal(a / 10).len() + 1);
        } else if b >= 10 {
            assert(decimal(b / 10).len() > 0) by {
                lemma_decimal_nonempty(b / 10);
            }
        }
    }
    lemma_decimal_nonempty(a);
}

/// A number is written in digits.
pub proof fn lemma_decimal_digits(n: nat)
    ensures
        forall|i: int| 0 <= i < decimal(n).len() ==> is_digit(#[trigger] decimal(n)[i]),
    decreases n,
{
    if n >= 10 {
        let front = decimal(n / 10);
        lemma_decimal_digits(n / 10);
        assert forall|i: int| 0 <= i < decimal(n).len() implies is_digit(
            #[trigger] decimal(n)[i],
        ) by {
            if i < front.len() {
                assert(decimal(n)[i] == front[i]);
            }
        }
    }
}

proof fn lemma_decimal_nonempty(n: nat)
    ensures
        decimal(n).len() > 0,
{
}

// ---------------------------------------------------------------------------
// Byte lengths.
// ---------------------------------------------------------------------------

/// How many bytes `c` takes in UTF-8.
pub open spec fn width(c: char) -> nat {
    if c as u32 <= 0x7F {
        1
    } else if c as u32 <= 0x7FF {
        2
    } else if c as u32 <= 0xFFFF {
        3
    } else {
        4
    }
}

/// How many bytes `s` takes in UTF-8.
pub open spec fn byte_len(s: Seq<char>) -> nat
    decreases s.len(),
{
    if s.len() == 0 {
        0
    } else {
        width(s[0]) + byte_len(s.drop_first())
    }
}

pub proof fn lemma_byte_len_bounds(s: Seq<char>)
    ensures
        s.len() <= byte_len(s) <= 4 * s.len(),
    decreases s.len(),
{
    if s.len() > 0 {
        lemma_byte_len_bounds(s.drop_first());
    }
}

pub proof fn lemma_byte_len_add(a: Seq<char>, b: Seq<char>)
    ensures
        byte_len(a + b) == byte_len(a) + byte_len(b),
    decreases a.len(),
{
    if a.len() == 0 {
        assert(a + b =~= b);
    } else {
        lemma_byte_len_add(a.drop_first(), b);
        assert((a + b).drop_first() =~= a.drop_first() + b);
    }
}

/// `byte_len` is the length of the UTF-8 encoding.
pub proof fn lemma_byte_len_is_encoded(s: Seq<char>)
    ensures
        byte_len(s) == encode_utf8(s).len(),
    decreases s.len(),
{
    if s.len() > 0 {
        lemma_byte_len_is_encoded(s.drop_first());
        assert(vstd::utf8::is_scalar(s[0] as u32)) by {
            vstd::utf8::char_is_scalar(s[0]);
        }
        assert(encode_scalar(s[0] as u32).len() == width(s[0]));
    }
}

/// How many bytes `s` takes in UTF-8.
pub fn bytes_in(s: &[char]) -> (r: u128)
    ensures
        r == byte_len(s@),
{
    let mut total: u128 = 0;
    let mut i: usize = 0;
    assert(s@.skip(0) =~= s@);
    while i < s.len()
        invariant
            i <= s@.len(),
            total + byte_len(s@.skip(i as int)) == byte_len(s@),
            total <= 4 * i,
        decreases s@.len() - i,
    {
        assert(s@.skip(i as int).drop_first() =~= s@.skip(i + 1));
        let u: u32 = s[i] as u32;
        let w: u128 = if u <= 0x7F {
            1
        } else if u <= 0x7FF {
            2
        } else if u <= 0xFFFF {
            3
        } else {
            4
        };
        total = total + w;
        i += 1;
    }
    total
}

// ---------------------------------------------------------------------------
// Replacement.
// ---------------------------------------------------------------------------

/// `s` from `at` on, with every occurrence of `pat` replaced by `to`, found left
/// to right and not overlapping. `pat` is not empty.
pub open spec fn replace_from(s: Seq<char>, pat: Seq<char>, to: Seq<char>, at: int) -> Seq<char>
    decreases s.len() - at,
{
    match find(s, pat, at) {
        Some(k) => if 0 <= at <= k && 0 < pat.len() && k + pat.len() <= s.len() {
            s.subrange(at, k) + to + replace_from(s, pat, to, k + pat.len())
        } else {
            s.skip(at)
        },
        None => s.skip(at),
    }
}

/// `to` before every character of `s` and after the last.
pub open spec fn interleaved(s: Seq<char>, to: Seq<char>) -> Seq<char>
    decreases s.len(),
{
    if s.len() == 0 {
        to
    } else {
        to + seq![s[0]] + interleaved(s.drop_first(), to)
    }
}

/// `s` with every occurrence of `pat` replaced by `to`. An empty `pat` stands
/// between any two characters and at both ends.
pub open spec fn replace(s: Seq<char>, pat: Seq<char>, to: Seq<char>) -> Seq<char> {
    if pat.len() == 0 {
        interleaved(s, to)
    } else {
        replace_from(s, pat, to, 0)
    }
}

/// `s` with every occurrence of `pat` replaced by `to`.
pub fn replaced(s: &[char], pat: &[char], to: &[char]) -> (r: Vec<char>)
    ensures
        r@ == replace(s@, pat@, to@),
{
    let mut out: Vec<char> = Vec::new();
    if pat.len() == 0 {
        let mut i: usize = 0;
        assert(s@.skip(0) =~= s@);
        while i < s.len()
            invariant
                i <= s@.len(),
                out@ + interleaved(s@.skip(i as int), to@) =~= interleaved(s@, to@),
            decreases s@.len() - i,
        {
            assert(s@.skip(i as int).drop_first() =~= s@.skip(i + 1));
            push_chars(&mut out, to);
            out.push(s[i]);
            i += 1;
        }
        push_chars(&mut out, to);
        return out;
    }
    let mut at: usize = 0;
    let len: usize = s.len();
    loop
        invariant
            at <= len,
            len == s@.len(),
            pat@.len() > 0,
            out@ + replace_from(s@, pat@, to@, at as int) =~= replace_from(s@, pat@, to@, 0),
        decreases s@.len() - at,
    {
        match position(s, pat, at) {
            Some(k) => {
                push_chars(&mut out, slice_subrange(s, at, k));
                push_chars(&mut out, to);
                at = k + pat.len();
            },
            None => {
                push_chars(&mut out, after(s, at));
                return out;
            },
        }
    }
}

/// Nothing is found where nothing stands.
pub proof fn lemma_absent(s: Seq<char>, pat: Seq<char>, from: int)
    requires
        !has_text(s, pat),
        0 <= from,
    ensures
        find(s, pat, from) is None,
        pat.len() > 0,
{
    lemma_find(s, pat, from);
    if pat.len() == 0 {
        assert(s.subrange(0, 0) =~= pat);
        assert(occurs_at(s, pat, 0));
    }
}

/// A text in which nothing is to be replaced stays as it is.
pub proof fn lemma_replace_absent(s: Seq<char>, pat: Seq<char>, to: Seq<char>)
    requires
        !has_text(s, pat),
    ensures
        replace(s, pat, to) == s,
{
    lemma_absent(s, pat, 0);
    assert(s.skip(0) =~= s);
}

/// Where a text stands once, it is replaced once.
pub proof fn lemma_replace_once(
    front: Seq<char>,
    pat: Seq<char>,
    back: Seq<char>,
    to: Seq<char>,
)
    requires
        pat.len() > 0,
        forall|k: int| #[trigger] occurs_at(front + pat + back, pat, k) ==> k == front.len(),
    ensures
        replace(front + pat + back, pat, to) == front + to + back,
{
    let s = front + pat + back;
    let k = front.len() as int;
    assert(s.subrange(k, k + pat.len()) =~= pat);
    assert(occurs_at(s, pat, k));
    lemma_find(s, pat, 0);
    lemma_find(s, pat, k + pat.len());
    assert(find(s, pat, 0) == Some(k));
    assert(find(s, pat, k + pat.len()) is None);
    assert(s.subrange(0, k) =~= front);
    assert(replace_from(s, pat, to, k + pat.len()) =~= back);
    assert(replace_from(s, pat, to, 0) =~= front + to + back);
}

// ---------------------------------------------------------------------------
// A text in a frame: spaces in front of it, a position behind it.
// ---------------------------------------------------------------------------

/// Whether `front` is nothing but spaces, and `back` is nothing, or a colon and then
/// only colons and digits, with a digit behind each colon.
pub open spec fn is_frame(front: Seq<char>, back: Seq<char>) -> bool {
    &&& forall|i: int| 0 <= i < front.len() ==> front[i] == ' '
    &&& back.len() > 0 ==> back[0] == ':'
    &&& forall|i: int| 0 <= i < back.len() ==> back[i] == ':' || is_digit(back[i])
    &&& forall|i: int|
        0 <= i < back.len() && #[trigger] back[i] == ':' ==> i + 1 < back.len() && is_digit(
            back[i + 1],
        )
}

/// Whether no colon in a text has a digit behind it.
pub open spec fn is_unnumbered(text: Seq<char>) -> bool {
    forall|i: int| 0 <= i < text.len() - 1 && #[trigger] text[i] == ':' ==> !is_digit(text[i + 1])
}

/// Whether a text could reach no further into a frame around another than a colon at its
/// own end: it begins with neither a space nor a digit, and no colon in it has a digit
/// behind it.
pub open spec fn is_unframed(pat: Seq<char>) -> bool {
    &&& pat.len() > 0
    &&& !Class::Margin.has(pat[0])
    &&& is_unnumbered(pat)
}

/// Whether a text could not reach into a frame at all.
pub open spec fn is_apart(pat: Seq<char>) -> bool {
    is_unframed(pat) && pat.last() != ':'
}

/// In a frame a text stands where it stood, and else only where a colon at its own end is
/// that of a position.
pub proof fn lemma_stands_framed(
    front: Seq<char>,
    s: Seq<char>,
    back: Seq<char>,
    pat: Seq<char>,
    j: int,
)
    requires
        is_frame(front, back),
        is_unframed(pat),
    ensures
        occurs_at(s, pat, j - front.len()) ==> occurs_at(front + s + back, pat, j),
        occurs_at(front + s + back, pat, j) && !occurs_at(s, pat, j - front.len()) ==> {
            &&& pat.last() == ':'
            &&& front.len() + s.len() < j + pat.len() < (front + s + back).len()
            &&& is_digit((front + s + back)[j + pat.len()])
        },
{
    let whole = front + s + back;
    let n = front.len() as int;
    let end = n + s.len();
    if occurs_at(whole, pat, j) {
        let found = whole.subrange(j, j + pat.len());
        assert(found[0] == whole[j]);
        if j < n {
            assert(whole[j] == front[j]);
        } else if j + pat.len() <= end {
            assert(s.subrange(j - n, j - n + pat.len()) =~= found);
        } else {
            // The first colon of the position, or the one the text begins with.
            let at = if j < end {
                end
            } else {
                j
            };
            let q = at - j;
            assert(whole[at] == back[at - end]);
            assert(found[q] == whole[at]);
            assert(pat[q] == ':');
            assert(is_digit(back[at - end + 1]));
            assert(whole[at + 1] == back[at - end + 1]);
            if q + 1 < pat.len() {
                assert(found[q + 1] == whole[at + 1]);
                assert(is_digit(pat[q + 1]));
            }
        }
    }
    if occurs_at(s, pat, j - n) {
        assert(whole.subrange(j, j + pat.len()) =~= s.subrange(j - n, j - n + pat.len()));
    }
}

/// In a frame a text stands where it stood, and nowhere else.
pub proof fn lemma_occurs_framed(
    front: Seq<char>,
    s: Seq<char>,
    back: Seq<char>,
    pat: Seq<char>,
    j: int,
)
    requires
        is_frame(front, back),
        is_apart(pat),
    ensures
        occurs_at(front + s + back, pat, j) <==> occurs_at(s, pat, j - front.len()),
{
    lemma_stands_framed(front, s, back, pat, j);
}

/// In a frame a text is found where it was found without, if it was.
pub proof fn lemma_found_framed(
    front: Seq<char>,
    s: Seq<char>,
    back: Seq<char>,
    pat: Seq<char>,
    from: int,
)
    requires
        is_frame(front, back),
        is_unframed(pat),
        0 <= from,
        find(s, pat, from) is Some,
    ensures
        ({
            let whole = front + s + back;
            let n = front.len() as int;
            let k = find(s, pat, from)->0;
            &&& find(whole, pat, n + from) == Some(n + k)
            &&& from == 0 ==> find(whole, pat, 0) == Some(n + k)
            &&& from <= k && k + pat.len() <= s.len()
        }),
{
    let whole = front + s + back;
    let n = front.len() as int;
    let k = find(s, pat, from)->0;
    lemma_find(s, pat, from);
    lemma_find(whole, pat, n + from);
    lemma_find(whole, pat, 0);
    assert forall|j: int| #[trigger] occurs_at(whole, pat, j) && j <= n + k implies occurs_at(
        s,
        pat,
        j - n,
    ) by {
        lemma_stands_framed(front, s, back, pat, j);
    }
    lemma_stands_framed(front, s, back, pat, n + k);
    assert(occurs_at(whole, pat, n + k));
}

/// In a frame a text is found where it was found without.
pub proof fn lemma_find_framed(
    front: Seq<char>,
    s: Seq<char>,
    back: Seq<char>,
    pat: Seq<char>,
    from: int,
)
    requires
        is_frame(front, back),
        is_apart(pat),
        0 <= from,
    ensures
        ({
            let whole = front + s + back;
            let n = front.len() as int;
            match find(s, pat, from) {
                Some(k) => find(whole, pat, n + from) == Some(n + k) && (from == 0 ==> find(
                    whole,
                    pat,
                    0,
                ) == Some(n + k)) && from <= k && k + pat.len() <= s.len(),
                None => find(whole, pat, n + from) is None && (from == 0 ==> find(
                    whole,
                    pat,
                    0,
                ) is None),
            }
        }),
{
    let whole = front + s + back;
    let n = front.len() as int;
    lemma_find(s, pat, from);
    lemma_find(whole, pat, n + from);
    lemma_find(whole, pat, 0);
    assert forall|j: int| #[trigger] occurs_at(whole, pat, j) <==> occurs_at(s, pat, j - n) by {
        lemma_occurs_framed(front, s, back, pat, j);
    }
    if let Some(k) = find(s, pat, from) {
        assert(occurs_at(whole, pat, n + k));
        if let Some(j) = find(whole, pat, n + from) {
            assert(occurs_at(s, pat, j - n));
        }
        if let Some(j) = find(whole, pat, 0) {
            assert(occurs_at(s, pat, j - n));
        }
    } else {
        if let Some(j) = find(whole, pat, n + from) {
            assert(occurs_at(s, pat, j - n));
        }
        if let Some(j) = find(whole, pat, 0) {
            assert(occurs_at(s, pat, j - n));
        }
    }
}

proof fn lemma_replace_from_framed(
    front: Seq<char>,
    s: Seq<char>,
    back: Seq<char>,
    pat: Seq<char>,
    to: Seq<char>,
    at: int,
)
    requires
        is_frame(front, back),
        is_apart(pat),
        0 <= at <= s.len(),
    ensures
        replace_from(front + s + back, pat, to, front.len() + at) == replace_from(s, pat, to, at)
            + back,
    decreases s.len() - at,
{
    let whole = front + s + back;
    let n = front.len() as int;
    lemma_find_framed(front, s, back, pat, at);
    match find(s, pat, at) {
        Some(k) => {
            lemma_replace_from_framed(front, s, back, pat, to, k + pat.len());
            assert(whole.subrange(n + at, n + k) =~= s.subrange(at, k));
            assert(replace_from(whole, pat, to, n + at) =~= replace_from(s, pat, to, at) + back);
        },
        None => {
            assert(whole.skip(n + at) =~= s.skip(at) + back);
        },
    }
}

/// A text is replaced in a frame as it is without one.
pub proof fn lemma_replace_framed(
    front: Seq<char>,
    s: Seq<char>,
    back: Seq<char>,
    pat: Seq<char>,
    to: Seq<char>,
)
    requires
        is_frame(front, back),
        is_apart(pat),
    ensures
        replace(front + s + back, pat, to) == front + replace(s, pat, to) + back,
{
    let whole = front + s + back;
    let n = front.len() as int;
    lemma_find_framed(front, s, back, pat, 0);
    match find(s, pat, 0) {
        Some(k) => {
            lemma_replace_from_framed(front, s, back, pat, to, k + pat.len());
            assert(whole.subrange(0, n + k) =~= front + s.subrange(0, k));
            assert(replace(whole, pat, to) =~= front + replace(s, pat, to) + back);
        },
        None => {
            assert(whole.skip(0) =~= whole);
            assert(s.skip(0) =~= s);
        },
    }
}

// ---------------------------------------------------------------------------
// What the parts of a text are.
// ---------------------------------------------------------------------------

/// Trimming takes the white space at the ends of a text, all of it, and nothing else.
pub proof fn law_trimming_takes_the_white_space_around_a_text(
    front: Seq<char>,
    text: Seq<char>,
    back: Seq<char>,
)
    requires
        forall|i: int| 0 <= i < front.len() ==> is_whitespace(front[i]),
        forall|i: int| 0 <= i < back.len() ==> is_whitespace(back[i]),
        text.len() > 0,
        !is_whitespace(text[0]),
        !is_whitespace(text.last()),
    ensures
        trim_start(front + text + back) == text + back,
        trim_end(front + text + back) == front + text,
        trim(front + text + back) == text,
        trim(front) == Seq::<char>::empty(),
{
    let whole = front + text + back;
    assert forall|i: int| 0 <= i < front.len() implies Class::Whitespace.has(whole[i]) by {
        assert(whole[i] == front[i]);
    }
    assert(whole[front.len() as int] == text[0]);
    lemma_leading_is(whole, Class::Whitespace, front.len());
    assert(trim_start(whole) =~= text + back);
    assert forall|i: int| whole.len() - back.len() <= i < whole.len() implies Class::Whitespace.has(
        whole[i],
    ) by {
        assert(whole[i] == back[i - front.len() - text.len()]);
    }
    assert(whole[whole.len() - back.len() - 1] == text.last());
    lemma_trailing_is(whole, Class::Whitespace, back.len());
    assert(trim_end(whole) =~= front + text);
    let rest = text + back;
    assert forall|i: int| rest.len() - back.len() <= i < rest.len() implies Class::Whitespace.has(
        rest[i],
    ) by {
        assert(rest[i] == back[i - text.len()]);
    }
    assert(rest[rest.len() - back.len() - 1] == text.last());
    lemma_trailing_is(rest, Class::Whitespace, back.len());
    assert(trim_end(rest) =~= text);
    lemma_leading_is(front, Class::Whitespace, front.len());
    assert(trim_start(front) =~= seq![]);
    assert(trim(front) =~= seq![]);
}

/// Of the characters that are written in ASCII, the space, the tab and what ends a line or a
/// page is white space, and nothing that shows is.
pub proof fn law_what_shows_is_no_white_space(c: char)
    ensures
        is_whitespace(' ') && is_whitespace('\t') && is_whitespace('\n') && is_whitespace('\r'),
        '!' <= c <= '~' ==> !is_whitespace(c),
{
}

/// A line goes up to its line feed, without it and without a carriage return in front of
/// it; what stands behind is lines again; and a last line needs no line feed.
pub proof fn law_a_line_ends_at_its_line_feed(line: Seq<char>, rest: Seq<char>)
    requires
        forall|i: int| 0 <= i < line.len() ==> line[i] != '\n',
    ensures
        lines(line + seq!['\n'] + rest) == seq![
            if line.len() > 0 && line.last() == '\r' {
                line.drop_last()
            } else {
                line
            },
        ] + lines(rest),
        line.len() > 0 ==> lines(line) == seq![line],
        lines(seq![]) == Seq::<Seq<char>>::empty(),
{
    let whole = line + seq!['\n'] + rest;
    assert forall|i: int| 0 <= i < line.len() implies Class::LineBody.has(whole[i]) by {
        assert(whole[i] == line[i]);
    }
    assert(whole[line.len() as int] == '\n');
    lemma_leading_is(whole, Class::LineBody, line.len());
    assert(whole.take(line.len() as int) =~= line);
    assert(whole.skip(line.len() + 1int) =~= rest);
    lemma_leading_is(line, Class::LineBody, line.len());
}

/// Lines put together, each with a line feed behind it, are read back as they were.
pub proof fn law_lines_are_read_back(list: Seq<Seq<char>>)
    requires
        forall|i: int|
            0 <= i < list.len() ==> !(#[trigger] list[i]).contains('\n') && (list[i].len() == 0
                || list[i].last() != '\r'),
    ensures
        lines(terminated(list)) == list,
{
    lemma_lines_of_terminated(list);
}

/// A part more goes behind the others, with the separator between, and one by itself has
/// none.
pub proof fn law_parts_are_joined_in_order(list: Seq<Seq<char>>, last: Seq<char>, sep: Seq<char>)
    ensures
        join(seq![last], sep) == last,
        list.len() > 0 ==> join(list.push(last), sep) == join(list, sep) + sep + last,
        join(seq![], sep) == Seq::<char>::empty(),
{
    let one = seq![last];
    assert(one.drop_first() =~= seq![]);
    assert(separated(one.drop_first(), sep) =~= seq![]);
    assert(join(one, sep) =~= last);
    if list.len() > 0 {
        let more = list.push(last);
        assert(more[0] == list[0]);
        assert(more.drop_first() =~= list.drop_first().push(last));
        lemma_separated_in_order(list.drop_first(), last, sep);
        assert(join(more, sep) =~= join(list, sep) + sep + last);
    }
}

proof fn lemma_separated_in_order(list: Seq<Seq<char>>, last: Seq<char>, sep: Seq<char>)
    ensures
        separated(list.push(last), sep) == separated(list, sep) + sep + last,
    decreases list.len(),
{
    let more = list.push(last);
    if list.len() == 0 {
        assert(more.drop_first() =~= seq![]);
        assert(separated(more.drop_first(), sep) =~= seq![]);
        assert(separated(more, sep) =~= separated(list, sep) + sep + last);
    } else {
        assert(more[0] == list[0]);
        assert(more.drop_first() =~= list.drop_first().push(last));
        lemma_separated_in_order(list.drop_first(), last, sep);
        assert(separated(more, sep) =~= separated(list, sep) + sep + last);
    }
}

/// Texts are in the order of their first characters that differ, and a text comes before
/// one that goes on where it ends.
pub proof fn law_texts_are_ordered_by_their_first_difference(
    front: Seq<char>,
    a: Seq<char>,
    b: Seq<char>,
)
    ensures
        precedes(front + a, front + b) == precedes(a, b),
        a.len() > 0 && b.len() > 0 && a[0] != b[0] ==> precedes(a, b) == (a[0] < b[0]),
        a.len() == 0 ==> precedes(a, b) == (b.len() > 0),
        b.len() == 0 ==> !precedes(a, b),
    decreases front.len(),
{
    if front.len() == 0 {
        assert(front + a =~= a);
        assert(front + b =~= b);
    } else {
        let rest = front.drop_first();
        law_texts_are_ordered_by_their_first_difference(rest, a, b);
        assert((front + a)[0] == front[0]);
        assert((front + b)[0] == front[0]);
        assert((front + a).drop_first() =~= rest + a);
        assert((front + b).drop_first() =~= rest + b);
    }
}

/// The number that digits say.
pub open spec fn number_said(digits: Seq<char>) -> nat
    decreases digits.len(),
{
    if digits.len() == 0 {
        0
    } else {
        (10 * number_said(digits.drop_last()) + (digits.last() as u32 - 48)) as nat
    }
}

/// A number is written with the digits that say it, and with none too many.
pub proof fn law_a_number_is_said_by_its_digits(n: nat)
    ensures
        number_said(decimal(n)) == n,
        forall|i: int| 0 <= i < decimal(n).len() ==> '0' <= #[trigger] decimal(n)[i] <= '9',
        decimal(n).len() > 1 ==> decimal(n)[0] != '0',
        decimal(n).len() > 0,
    decreases n,
{
    let text = decimal(n);
    if n < 10 {
        assert(text.drop_last() =~= seq![]);
        assert(number_said(text.drop_last()) == 0);
    } else {
        let front = decimal(n / 10);
        law_a_number_is_said_by_its_digits(n / 10);
        assert(text.drop_last() =~= front);
        assert(text.last() == digit(n % 10));
        assert forall|i: int| 0 <= i < text.len() implies '0' <= #[trigger] text[i] <= '9' by {
            if i < front.len() {
                assert(text[i] == front[i]);
            }
        }
        assert(text[0] == front[0]);
        if n / 10 < 10 {
            assert(1 <= n / 10);
            assert(front =~= seq![digit(n / 10)]);
            assert(digit(n / 10) != '0');
        } else {
            lemma_decimal_nonempty(n / 10 / 10);
            assert(front.len() > 1);
        }
    }
}

/// A text is replaced wherever it stands: once at its first place, and then in what stands
/// behind.
pub proof fn law_every_occurrence_is_replaced(
    front: Seq<char>,
    pat: Seq<char>,
    rest: Seq<char>,
    to: Seq<char>,
)
    requires
        pat.len() > 0,
        forall|k: int| #[trigger]
            occurs_at(front + pat + rest, pat, k) ==> k >= front.len(),
    ensures
        replace(front + pat + rest, pat, to) == front + to + replace(rest, pat, to),
{
    let whole = front + pat + rest;
    let k = front.len() as int;
    let next = k + pat.len();
    assert(whole.subrange(k, next) =~= pat);
    assert(occurs_at(whole, pat, k));
    lemma_find(whole, pat, 0);
    assert(find(whole, pat, 0) == Some(k));
    assert(whole.subrange(0, k) =~= front);
    assert(whole =~= (front + pat) + rest);
    lemma_replace_from_shift(front + pat, rest, pat, to, 0);
}

proof fn lemma_replace_from_shift(
    front: Seq<char>,
    s: Seq<char>,
    pat: Seq<char>,
    to: Seq<char>,
    at: int,
)
    requires
        pat.len() > 0,
        0 <= at <= s.len(),
    ensures
        replace_from(front + s, pat, to, front.len() + at) == replace_from(s, pat, to, at),
    decreases s.len() - at,
{
    let whole = front + s;
    let n = front.len() as int;
    lemma_find(s, pat, at);
    lemma_find(whole, pat, n + at);
    assert forall|k: int| 0 <= k implies occurs_at(s, pat, k) == #[trigger] occurs_at(
        whole,
        pat,
        n + k,
    ) by {
        if k + pat.len() <= s.len() {
            assert(whole.subrange(n + k, n + k + pat.len()) =~= s.subrange(k, k + pat.len()));
        }
    }
    match find(s, pat, at) {
        Some(k) => {
            assert(occurs_at(whole, pat, n + k));
            if let Some(j) = find(whole, pat, n + at) {
                assert(occurs_at(whole, pat, n + (j - n)));
            }
            assert(find(whole, pat, n + at) == Some(n + k));
            lemma_replace_from_shift(front, s, pat, to, k + pat.len());
            assert(whole.subrange(n + at, n + k) =~= s.subrange(at, k));
        },
        None => {
            if let Some(j) = find(whole, pat, n + at) {
                assert(occurs_at(whole, pat, n + (j - n)));
            }
            assert(whole.skip(n + at) =~= s.skip(at));
        },
    }
}

/// Two texts are the same but for case where each pair of characters is one letter, in
/// capitals or not, or one character.
pub proof fn law_case_is_of_letters_alone(a: Seq<char>, b: Seq<char>)
    ensures
        same_but_for_case(a, b) <==> a.len() == b.len() && forall|i: int|
            0 <= i < a.len() ==> {
                ||| #[trigger] a[i] == b[i]
                ||| 'a' <= a[i] <= 'z' && a[i] as u32 == b[i] as u32 + 32
                ||| 'a' <= b[i] <= 'z' && b[i] as u32 == a[i] as u32 + 32
            },
{
    assert forall|c: char, d: char| (#[trigger] lower(c) == #[trigger] lower(d)) == {
        ||| c == d
        ||| 'a' <= c <= 'z' && c as u32 == d as u32 + 32
        ||| 'a' <= d <= 'z' && d as u32 == c as u32 + 32
    } by {
        lemma_lower_of(c);
        lemma_lower_of(d);
    }
    if same_but_for_case(a, b) {
        assert forall|i: int| 0 <= i < a.len() implies {
            ||| #[trigger] a[i] == b[i]
            ||| 'a' <= a[i] <= 'z' && a[i] as u32 == b[i] as u32 + 32
            ||| 'a' <= b[i] <= 'z' && b[i] as u32 == a[i] as u32 + 32
        } by {
            assert(lower(a[i]) == lower(b[i]));
        }
    }
}

proof fn lemma_lower_of(c: char)
    ensures
        'A' <= c <= 'Z' ==> lower(c) as u32 == c as u32 + 32,
        !('A' <= c <= 'Z') ==> lower(c) == c,
{
}

/// What white space is: what moves the cursor on, and the spaces and separators of Unicode.
pub proof fn law_what_white_space_is(c: char)
    ensures
        is_whitespace(c) <==> {
            ||| c == '\t' || c == '\n' || c == '\u{b}' || c == '\u{c}' || c == '\r' || c == ' '
            ||| c == '\u{85}' || c == '\u{a0}' || c == '\u{1680}'
            ||| '\u{2000}' <= c <= '\u{200a}'
            ||| c == '\u{2028}' || c == '\u{2029}' || c == '\u{202f}' || c == '\u{205f}'
            ||| c == '\u{3000}'
        },
{
}

} // verus!

//! Path arithmetic, done on the text of a path.
//!
//! Nothing here touches the file system: no symlink is followed and no name is
//! looked up. A path is text in which `/` separates names.
use crate::text::{
    after, before, chars_of, copy_of, count_trailing, join, joined, leading, lemma_leading,
    lemma_leading_is, lemma_trailing, lemma_trailing_is, push_chars, push_text, same, segments,
    separated, split_segments, string_of, texts, trailing, Class,
};
use vstd::prelude::*;

verus! {

/// One component of a path, as a value to reason about.
pub enum Part {
    /// The root an absolute path begins at.
    Root,
    /// A leading `.`; one anywhere else says nothing and is not a component.
    Here,
    /// A `..`.
    Up,
    /// A file or directory name.
    Name(Seq<char>),
}

/// One component of a path.
#[derive(Debug)]
pub enum Component {
    RootDir,
    CurDir,
    ParentDir,
    Normal(Vec<char>),
}

impl View for Component {
    type V = Part;

    open spec fn view(&self) -> Part {
        match self {
            Component::RootDir => Part::Root,
            Component::CurDir => Part::Here,
            Component::ParentDir => Part::Up,
            Component::Normal(name) => Part::Name(name@),
        }
    }
}

/// The components in a list, as values.
pub open spec fn parts(list: Seq<Component>) -> Seq<Part> {
    list.map_values(|c: Component| c@)
}

/// Whether a path starts at the root.
pub open spec fn is_absolute(path: Seq<char>) -> bool {
    path.len() > 0 && path[0] == '/'
}

/// The components a list of segments stands for. Empty segments and every `.`
/// but a first one say nothing.
pub open spec fn segment_parts(segs: Seq<Seq<char>>, first: bool) -> Seq<Part>
    decreases segs.len(),
{
    if segs.len() == 0 {
        seq![]
    } else {
        segment_part(segs[0], first) + segment_parts(segs.drop_first(), false)
    }
}

/// The component one segment stands for, or none.
pub open spec fn segment_part(seg: Seq<char>, first: bool) -> Seq<Part> {
    if seg.len() == 0 || (seg == seq!['.'] && !first) {
        seq![]
    } else if seg == seq!['.'] {
        seq![Part::Here]
    } else if seg == seq!['.', '.'] {
        seq![Part::Up]
    } else {
        seq![Part::Name(seg)]
    }
}

/// The components of a path.
pub open spec fn components(path: Seq<char>) -> Seq<Part> {
    (if is_absolute(path) {
        seq![Part::Root]
    } else {
        seq![]
    }) + segment_parts(segments(path), true)
}

/// The text of one component.
pub open spec fn part_text(part: Part) -> Seq<char> {
    match part {
        Part::Root => seq!['/'],
        Part::Here => seq!['.'],
        Part::Up => seq!['.', '.'],
        Part::Name(name) => name,
    }
}

/// The path with these components, one `/` between each name and the next.
pub open spec fn render(list: Seq<Part>) -> Seq<char>
    decreases list.len(),
{
    if list.len() == 0 {
        seq![]
    } else {
        let head = render(list.drop_last());
        if list.last() is Root || head.len() == 0 || head.last() == '/' {
            head + part_text(list.last())
        } else {
            head + seq!['/'] + part_text(list.last())
        }
    }
}

/// The components with every `.` dropped and every `..` cancelled against the
/// name before it. A `..` at the root stays at the root; one with nothing to
/// cancel is kept, since dropping it would name a different directory.
pub open spec fn fold(list: Seq<Part>) -> Seq<Part>
    decreases list.len(),
{
    if list.len() == 0 {
        seq![]
    } else {
        let head = fold(list.drop_last());
        match list.last() {
            Part::Here => head,
            Part::Up => if head.len() > 0 && head.last() is Name {
                head.drop_last()
            } else if head.len() > 0 && head.last() is Root {
                head
            } else {
                head.push(Part::Up)
            },
            other => head.push(other),
        }
    }
}

/// `path` as seen from `base`: `path` itself where it is absolute.
pub open spec fn path_join(base: Seq<char>, path: Seq<char>) -> Seq<char> {
    if is_absolute(path) {
        path
    } else if base.len() == 0 || base.last() == '/' {
        base + path
    } else {
        base + seq!['/'] + path
    }
}

/// `path` resolved against `base`, with `.` and `..` folded away.
pub open spec fn lexical_path(base: Seq<char>, path: Seq<char>) -> Seq<char> {
    render(fold(components(path_join(base, path))))
}

/// The components of a path.
pub fn components_of(path: &[char]) -> (r: Vec<Component>)
    ensures
        parts(r@) == components(path@),
{
    let mut out: Vec<Component> = Vec::new();
    if path.len() > 0 && path[0] == '/' {
        out.push(Component::RootDir);
    }
    let segs = split_segments(path);
    let ghost all = segments(path@);
    let ghost start = parts(out@);
    assert(start =~= if is_absolute(path@) {
        seq![Part::Root]
    } else {
        seq![]
    });
    let mut i: usize = 0;
    assert(all.skip(0) =~= all);
    while i < segs.len()
        invariant
            i <= segs@.len(),
            all == texts(segs@),
            parts(out@) + segment_parts(all.skip(i as int), i == 0) =~= start + segment_parts(
                all,
                true,
            ),
        decreases segs@.len() - i,
    {
        let seg = &segs[i];
        let ghost done = parts(out@);
        assert(all.skip(i as int)[0] == seg@);
        assert(all.skip(i as int).drop_first() =~= all.skip(i + 1));
        let dot: bool = seg.len() == 1 && seg[0] == '.';
        let dots: bool = seg.len() == 2 && seg[0] == '.' && seg[1] == '.';
        assert(dot == (seg@ =~= seq!['.']));
        assert(dots == (seg@ =~= seq!['.', '.']));
        if seg.len() == 0 || (dot && i > 0) {
        } else if dot {
            out.push(Component::CurDir);
        } else if dots {
            out.push(Component::ParentDir);
        } else {
            out.push(Component::Normal(copy_of(seg.as_slice())));
        }
        assert(parts(out@) =~= done + segment_part(seg@, i == 0));
        i += 1;
    }
    assert(segment_parts(all.skip(i as int), i == 0) =~= seq![]);
    out
}

/// The path with these components.
pub fn rendered(list: &Vec<Component>) -> (r: Vec<char>)
    ensures
        r@ == render(parts(list@)),
{
    let mut out: Vec<char> = Vec::new();
    let ghost all = parts(list@);
    let mut i: usize = 0;
    assert(all.take(0) =~= seq![]);
    while i < list.len()
        invariant
            i <= list@.len(),
            all == parts(list@),
            out@ == render(all.take(i as int)),
        decreases list@.len() - i,
    {
        assert(all.take(i + 1).drop_last() =~= all.take(i as int));
        assert(all.take(i + 1).last() == list@[i as int]@);
        let root: bool = match &list[i] {
            Component::RootDir => true,
            _ => false,
        };
        if !(root || out.len() == 0 || out[out.len() - 1] == '/') {
            out.push('/');
        }
        let ghost head = out@;
        match &list[i] {
            Component::RootDir => {
                out.push('/');
                assert(out@ =~= head + part_text(Part::Root));
            },
            Component::CurDir => {
                out.push('.');
                assert(out@ =~= head + part_text(Part::Here));
            },
            Component::ParentDir => {
                out.push('.');
                out.push('.');
                assert(out@ =~= head + part_text(Part::Up));
            },
            Component::Normal(name) => push_chars(&mut out, name.as_slice()),
        }
        assert(out@ =~= render(all.take(i + 1)));
        i += 1;
    }
    assert(all.take(i as int) =~= all);
    out
}

/// Whether two components are the same.
pub fn same_component(a: &Component, b: &Component) -> (r: bool)
    ensures
        r == (a@ == b@),
{
    match (a, b) {
        (Component::RootDir, Component::RootDir) => true,
        (Component::CurDir, Component::CurDir) => true,
        (Component::ParentDir, Component::ParentDir) => true,
        (Component::Normal(x), Component::Normal(y)) => same(x.as_slice(), y.as_slice()),
        _ => false,
    }
}

/// Whether the components of `short` are the first ones of `long`.
pub fn is_component_prefix(short: &Vec<Component>, long: &Vec<Component>) -> (r: bool)
    ensures
        r == parts(short@).is_prefix_of(parts(long@)),
{
    if short.len() > long.len() {
        return false;
    }
    let mut i: usize = 0;
    while i < short.len()
        invariant
            i <= short@.len() <= long@.len(),
            forall|k: int| 0 <= k < i ==> parts(short@)[k] == parts(long@)[k],
        decreases short@.len() - i,
    {
        if !same_component(&short[i], &long[i]) {
            assert(parts(short@)[i as int] != parts(long@)[i as int]);
            return false;
        }
        i += 1;
    }
    assert(parts(short@) =~= parts(long@).subrange(0, parts(short@).len() as int));
    true
}

/// Whether two paths are the same path: the same components in the same order,
/// however they are spelled.
pub open spec fn same_path(a: Seq<char>, b: Seq<char>) -> bool {
    components(a) == components(b)
}

/// Whether two paths have the same components.
pub fn is_same_path(a: &str, b: &str) -> (r: bool)
    ensures
        r == same_path(a@, b@),
{
    let a = chars_of(a);
    let b = chars_of(b);
    let a = components_of(a.as_slice());
    let b = components_of(b.as_slice());
    if a.len() != b.len() {
        assert(parts(a@).len() != parts(b@).len());
        return false;
    }
    let r: bool = is_component_prefix(&a, &b);
    assert(parts(b@).subrange(0, parts(b@).len() as int) =~= parts(b@));
    r
}

/// `path` as seen from `base`.
pub fn joined_path(base: &[char], path: &[char]) -> (r: Vec<char>)
    ensures
        r@ == path_join(base@, path@),
{
    if path.len() > 0 && path[0] == '/' {
        return copy_of(path);
    }
    let mut out = copy_of(base);
    if base.len() > 0 && base[base.len() - 1] != '/' {
        out.push('/');
    }
    push_chars(&mut out, path);
    assert(out@ =~= path_join(base@, path@));
    out
}

/// `path` as seen from `base`.
pub fn join_path(base: &str, path: &str) -> (r: String)
    ensures
        r@ == path_join(base@, path@),
{
    let base = chars_of(base);
    let path = chars_of(path);
    let out = joined_path(base.as_slice(), path.as_slice());
    string_of(out.as_slice())
}

/// Resolve `path` against `base`, folding away `.` and `..` textually.
///
/// Not a canonicalization: no symlink is followed. The folding is load-bearing
/// rather than cosmetic. Cargo normalizes the manifest path it reports, so a
/// `..` left in the path it is handed comes back spelled differently, and every
/// message is attributed by comparing those two paths.
pub fn lexical_join(base: &str, path: &str) -> (r: String)
    ensures
        r@ == lexical_path(base@, path@),
{
    let base = chars_of(base);
    let path = chars_of(path);
    let full = joined_path(base.as_slice(), path.as_slice());
    let list = components_of(full.as_slice());
    let out = folded(list);
    let out = rendered(&out);
    string_of(out.as_slice())
}

/// The components with `.` and `..` folded away.
pub fn folded(list: Vec<Component>) -> (r: Vec<Component>)
    ensures
        parts(r@) == fold(parts(list@)),
{
    let mut out: Vec<Component> = Vec::new();
    let ghost all = parts(list@);
    let mut i: usize = 0;
    assert(all.take(0) =~= seq![]);
    assert(parts(out@) =~= fold(all.take(0)));
    while i < list.len()
        invariant
            i <= list@.len(),
            all == parts(list@),
            parts(out@) == fold(all.take(i as int)),
        decreases list@.len() - i,
    {
        assert(all.take(i + 1).drop_last() =~= all.take(i as int));
        assert(all.take(i + 1).last() == list@[i as int]@);
        let ghost head = parts(out@);
        match &list[i] {
            Component::CurDir => {},
            Component::ParentDir => {
                assert(out@.len() > 0 ==> head.last() == out@.last()@);
                let mut cancels: bool = false;
                let mut at_root: bool = false;
                if out.len() > 0 {
                    match &out[out.len() - 1] {
                        Component::Normal(_) => cancels = true,
                        Component::RootDir => at_root = true,
                        _ => {},
                    }
                }
                if cancels {
                    out.pop();
                    assert(parts(out@) =~= head.drop_last());
                } else if !at_root {
                    out.push(Component::ParentDir);
                    assert(parts(out@) =~= head.push(Part::Up));
                }
            },
            Component::RootDir => {
                out.push(Component::RootDir);
                assert(parts(out@) =~= head.push(Part::Root));
            },
            Component::Normal(name) => {
                out.push(Component::Normal(copy_of(name.as_slice())));
                assert(parts(out@) =~= head.push(Part::Name(name@)));
            },
        }
        assert(parts(out@) =~= fold(all.take(i + 1)));
        i += 1;
    }
    assert(all.take(i as int) =~= all);
    out
}

// ---------------------------------------------------------------------------
// File names and extensions.
// ---------------------------------------------------------------------------

/// The index of the last segment that is a component, or -1.
pub open spec fn last_named(segs: Seq<Seq<char>>) -> int
    decreases segs.len(),
{
    let n = segs.len() - 1;
    if segs.len() == 0 {
        -1
    } else if segs[n].len() == 0 || (segs[n] == seq!['.'] && n > 0) {
        last_named(segs.drop_last())
    } else {
        n
    }
}

/// The last component of a path, where that is a name.
pub open spec fn file_name(path: Seq<char>) -> Option<Seq<char>> {
    let segs = segments(path);
    let k = last_named(segs);
    if k < 0 || segs[k] == seq!['.'] || segs[k] == seq!['.', '.'] {
        None
    } else {
        Some(segs[k])
    }
}

/// How much of a name stands before its extension. A full stop that begins the
/// name does not start one.
pub open spec fn stem_len(name: Seq<char>) -> int {
    let dot = name.len() - trailing(name, Class::DotFree) - 1;
    if dot <= 0 {
        name.len() as int
    } else {
        dot
    }
}

/// What follows the last full stop of a path's file name.
pub open spec fn extension(path: Seq<char>) -> Option<Seq<char>> {
    match file_name(path) {
        Some(name) => if stem_len(name) < name.len() {
            Some(name.skip(stem_len(name) + 1))
        } else {
            None
        },
        None => None,
    }
}

/// `path` with the extension of its file name replaced by `ext`, or with `ext`
/// added. A path without a file name stays as it is.
pub open spec fn with_extension(path: Seq<char>, ext: Seq<char>) -> Seq<char> {
    match file_name(path) {
        Some(name) => {
            let segs = segments(path);
            join(
                segs.take(last_named(segs)).push(name.take(stem_len(name)) + seq!['.'] + ext),
                seq!['/'],
            )
        },
        None => path,
    }
}

proof fn lemma_last_named(segs: Seq<Seq<char>>)
    ensures
        -1 <= last_named(segs) < segs.len(),
    decreases segs.len(),
{
    if segs.len() > 0 {
        lemma_last_named(segs.drop_last());
    }
}

/// The index of the segment that names the file, and the segments.
fn file_segment(path: &[char]) -> (r: (Vec<Vec<char>>, Option<usize>))
    ensures
        texts(r.0@) == segments(path@),
        match r.1 {
            Some(k) => k < r.0@.len() && k == last_named(segments(path@)) && file_name(path@)
                == Some(r.0@[k as int]@),
            None => file_name(path@) is None,
        },
{
    let segs = split_segments(path);
    let ghost all = segments(path@);
    let mut n: usize = segs.len();
    assert(all.take(n as int) =~= all);
    while n > 0
        invariant
            n <= segs@.len(),
            all == texts(segs@),
            all == segments(path@),
            last_named(all) == last_named(all.take(n as int)),
        decreases n,
    {
        let seg = &segs[n - 1];
        let dot: bool = seg.len() == 1 && seg[0] == '.';
        let dots: bool = seg.len() == 2 && seg[0] == '.' && seg[1] == '.';
        assert(dot == (seg@ =~= seq!['.']));
        assert(dots == (seg@ =~= seq!['.', '.']));
        assert(all.take(n as int).last() == seg@);
        assert(all.take(n as int).drop_last() =~= all.take(n - 1));
        if seg.len() == 0 || (dot && n > 1) {
            n -= 1;
        } else {
            assert(last_named(all) == n - 1);
            assert(all[n - 1] == seg@);
            if dot || dots {
                return (segs, None);
            }
            return (segs, Some(n - 1));
        }
    }
    assert(all.take(0) =~= seq![]);
    (segs, None)
}

/// How much of a name stands before its extension.
fn stem_of(name: &[char]) -> (r: usize)
    ensures
        r == stem_len(name@),
        r <= name@.len(),
{
    let free: usize = count_trailing(name, Class::DotFree);
    if free >= name.len() || free == name.len() - 1 {
        name.len()
    } else {
        name.len() - free - 1
    }
}

/// The last component of a path, where that is a name.
pub fn file_name_of(path: &str) -> (r: Option<String>)
    ensures
        match r {
            Some(name) => file_name(path@) == Some(name@),
            None => file_name(path@) is None,
        },
{
    let path = chars_of(path);
    let (segs, k) = file_segment(path.as_slice());
    match k {
        Some(k) => Some(string_of(segs[k].as_slice())),
        None => None,
    }
}

/// Whether the extension of a path is `ext`.
pub fn has_extension(path: &str, ext: &str) -> (r: bool)
    ensures
        r == (extension(path@) == Some(ext@)),
{
    let path = chars_of(path);
    let (segs, k) = file_segment(path.as_slice());
    match k {
        Some(k) => {
            let name = segs[k].as_slice();
            let stem: usize = stem_of(name);
            if stem < name.len() {
                let ext = chars_of(ext);
                same(after(name, stem + 1), ext.as_slice())
            } else {
                false
            }
        },
        None => false,
    }
}

/// `path` with the extension of its file name replaced by `ext`.
pub fn replace_extension(path: &str, ext: &str) -> (r: String)
    ensures
        r@ == with_extension(path@, ext@),
{
    let chars = chars_of(path);
    let (segs, k) = file_segment(chars.as_slice());
    match k {
        Some(k) => {
            let ghost all = segments(path@);
            let mut out: Vec<Vec<char>> = Vec::new();
            let mut i: usize = 0;
            while i < k
                invariant
                    i <= k < segs@.len(),
                    all == texts(segs@),
                    texts(out@) =~= all.take(i as int),
                decreases k - i,
            {
                let ghost done = texts(out@);
                out.push(copy_of(segs[i].as_slice()));
                assert(texts(out@) =~= done.push(all[i as int]));
                assert(all.take(i as int).push(all[i as int]) =~= all.take(i + 1));
                i += 1;
            }
            let name = segs[k].as_slice();
            let stem: usize = stem_of(name);
            let mut file = copy_of(before(name, stem));
            file.push('.');
            push_text(&mut file, ext);
            assert(file@ =~= name@.take(stem as int) + seq!['.'] + ext@);
            out.push(file);
            assert(texts(out@) =~= all.take(k as int).push(
                name@.take(stem as int) + seq!['.'] + ext@,
            ));
            let text = joined(&out, "/");
            proof {
                reveal_strlit("/");
                assert("/"@ =~= seq!['/']);
            }
            string_of(text.as_slice())
        },
        None => string_of(chars.as_slice()),
    }
}

// ---------------------------------------------------------------------------
// Laws.
// ---------------------------------------------------------------------------

/// Nothing left to fold: no `.`, and no `..` but at the very front.
pub open spec fn is_folded(list: Seq<Part>) -> bool {
    forall|i: int|
        0 <= i < list.len() ==> !(#[trigger] list[i] is Here) && (list[i] is Up ==> (forall|j: int|
            0 <= j < i ==> list[j] is Up))
}

/// Folding leaves nothing to fold: every `.` is gone, and the only `..` left are
/// leading ones that had nothing to cancel. In particular an absolute path keeps
/// none.
pub proof fn law_fold_is_folded(list: Seq<Part>)
    ensures
        is_folded(fold(list)),
        list.len() > 0 && list[0] is Root ==> (forall|i: int|
            0 <= i < fold(list).len() ==> !(fold(list)[i] is Up)),
        list.len() > 0 && list[0] is Root ==> fold(list).len() > 0 && fold(list)[0] is Root,
    decreases list.len(),
{
    if list.len() > 0 {
        law_fold_is_folded(list.drop_last());
        let head = fold(list.drop_last());
        if list.last() is Up {
            if head.len() > 0 && !(head.last() is Name) && !(head.last() is Root) {
                assert(head[head.len() - 1] is Up);
                assert forall|j: int| 0 <= j < head.len() implies head[j] is Up by {}
            }
        }
        if list.len() == 1 {
            assert(list.drop_last() =~= seq![]);
        }
    }
}

proof fn lemma_folded_is_fixed(list: Seq<Part>)
    requires
        is_folded(list),
    ensures
        fold(list) == list,
    decreases list.len(),
{
    if list.len() > 0 {
        let head = list.drop_last();
        assert forall|i: int| 0 <= i < head.len() implies !(#[trigger] head[i] is Here) && (
        head[i] is Up ==> (forall|j: int| 0 <= j < i ==> head[j] is Up)) by {
            assert(list[i] == head[i]);
            assert forall|j: int| 0 <= j < i && head[i] is Up implies head[j] is Up by {
                assert(list[j] == head[j]);
            }
        }
        lemma_folded_is_fixed(head);
        assert(!(list[list.len() - 1] is Here));
        if list.last() is Up {
            if head.len() > 0 {
                assert(list[head.len() - 1] is Up);
                assert(head.last() is Up);
            }
        }
        assert(fold(list) =~= list);
    }
}

/// Folding twice changes nothing the first time left.
pub proof fn law_fold_is_idempotent(list: Seq<Part>)
    ensures
        fold(fold(list)) == fold(list),
{
    law_fold_is_folded(list);
    lemma_folded_is_fixed(fold(list));
}

/// Components that a path could have: the root only in front, `.` only in front,
/// and names that read back as names.
pub open spec fn well_formed(list: Seq<Part>) -> bool {
    forall|i: int|
        0 <= i < list.len() ==> match #[trigger] list[i] {
            Part::Root => i == 0,
            Part::Here => i == 0,
            Part::Up => true,
            Part::Name(name) => is_name(name),
        }
}

/// Whether a segment is a file or directory name.
pub open spec fn is_name(name: Seq<char>) -> bool {
    &&& name.len() > 0
    &&& name != seq!['.']
    &&& name != seq!['.', '.']
    &&& forall|i: int| 0 <= i < name.len() ==> name[i] != '/'
}

/// What holds no separator and does not begin with a dot is a name.
pub proof fn lemma_is_name(name: Seq<char>)
    requires
        name.len() > 0,
        name[0] != '.',
        forall|i: int| 0 <= i < name.len() ==> name[i] != '/',
    ensures
        is_name(name),
{
    assert(seq!['.'][0] == '.');
    assert(seq!['.', '.'][0] == '.');
}

proof fn lemma_segments_have_no_separator(s: Seq<char>)
    ensures
        forall|k: int, i: int|
            0 <= k < segments(s).len() && 0 <= i < segments(s)[k].len() ==> #[trigger] segments(
                s,
            )[k][i] != '/',
        segments(s).len() > 0,
        is_absolute(s) ==> segments(s)[0].len() == 0,
    decreases s.len(),
{
    let end = leading(s, Class::SegmentBody) as int;
    lemma_leading(s, Class::SegmentBody);
    if end < s.len() {
        let rest = segments(s.skip(end + 1));
        lemma_segments_have_no_separator(s.skip(end + 1));
        assert(segments(s)[0] == s.take(end));
        assert forall|k: int, i: int|
            0 <= k < segments(s).len() && 0 <= i < segments(s)[k].len() implies #[trigger] segments(
            s,
        )[k][i] != '/' by {
            if k > 0 {
                assert(segments(s)[k] == rest[k - 1]);
                assert(rest[k - 1][i] != '/');
            } else {
                assert(Class::SegmentBody.has(s[i]));
            }
        }
    } else {
        assert forall|k: int, i: int|
            0 <= k < segments(s).len() && 0 <= i < segments(s)[k].len() implies #[trigger] segments(
            s,
        )[k][i] != '/' by {
            assert(Class::SegmentBody.has(s[i]));
        }
    }
}

proof fn lemma_segment_parts_well_formed(segs: Seq<Seq<char>>, first: bool)
    requires
        forall|k: int, i: int|
            0 <= k < segs.len() && 0 <= i < segs[k].len() ==> #[trigger] segs[k][i] != '/',
    ensures
        well_formed(segment_parts(segs, first)),
        forall|i: int| 0 <= i < segment_parts(segs, first).len() ==> !(segment_parts(segs, first)[i] is Root),
        !first || (segs.len() > 0 && segs[0].len() == 0) ==> (forall|i: int|
            0 <= i < segment_parts(segs, first).len() ==> !(segment_parts(segs, first)[i] is Here)),
    decreases segs.len(),
{
    if segs.len() > 0 {
        let rest = segs.drop_first();
        assert forall|k: int, i: int|
            0 <= k < rest.len() && 0 <= i < rest[k].len() implies #[trigger] rest[k][i] != '/' by {
            assert(segs[k + 1][i] != '/');
        }
        lemma_segment_parts_well_formed(rest, false);
        let head = segment_part(segs[0], first);
        let tail = segment_parts(rest, false);
        let all = segment_parts(segs, first);
        if head.len() > 0 && head[0] is Name {
            let seg = segs[0];
            assert forall|i: int| 0 <= i < seg.len() implies seg[i] != '/' by {
                assert(segs[0][i] != '/');
            }
        }
        assert forall|i: int| 0 <= i < all.len() implies match #[trigger] all[i] {
            Part::Root => i == 0,
            Part::Here => i == 0,
            Part::Up => true,
            Part::Name(name) => is_name(name),
        } by {
            if i >= head.len() {
                assert(all[i] == tail[i - head.len()]);
            }
        }
        assert forall|i: int| 0 <= i < all.len() implies !(all[i] is Root) by {
            if i >= head.len() {
                assert(all[i] == tail[i - head.len()]);
            }
        }
        if !first || segs[0].len() == 0 {
            assert forall|i: int| 0 <= i < all.len() implies !(all[i] is Here) by {
                if i >= head.len() {
                    assert(all[i] == tail[i - head.len()]);
                }
            }
        }
    }
}

/// Every path has well-formed components, and an absolute one has no `.` among
/// them.
pub proof fn lemma_components_well_formed(path: Seq<char>)
    ensures
        well_formed(components(path)),
{
    lemma_segments_have_no_separator(path);
    lemma_segment_parts_well_formed(segments(path), true);
    let tail = segment_parts(segments(path), true);
    let all = components(path);
    if is_absolute(path) {
        assert forall|i: int| 0 <= i < all.len() implies match #[trigger] all[i] {
            Part::Root => i == 0,
            Part::Here => i == 0,
            Part::Up => true,
            Part::Name(name) => is_name(name),
        } by {
            if i > 0 {
                assert(all[i] == tail[i - 1]);
            }
        }
    } else {
        assert(all =~= tail);
    }
}

proof fn lemma_fold_well_formed(list: Seq<Part>)
    requires
        well_formed(list),
    ensures
        well_formed(fold(list)),
        fold(list).len() <= list.len(),
    decreases list.len(),
{
    if list.len() > 0 {
        let head = list.drop_last();
        assert forall|i: int| 0 <= i < head.len() implies match #[trigger] head[i] {
            Part::Root => i == 0,
            Part::Here => i == 0,
            Part::Up => true,
            Part::Name(name) => is_name(name),
        } by {
            assert(list[i] == head[i]);
        }
        lemma_fold_well_formed(head);
        let folded_head = fold(head);
        assert(list.last() == list[list.len() - 1]);
        let all = fold(list);
        assert forall|i: int| 0 <= i < all.len() implies match #[trigger] all[i] {
            Part::Root => i == 0,
            Part::Here => i == 0,
            Part::Up => true,
            Part::Name(name) => is_name(name),
        } by {
            if i < folded_head.len() {
                assert(all[i] == folded_head[i]);
            }
        }
    }
}

/// A separator and a name after any path add one segment.
proof fn lemma_segments_push(head: Seq<char>, name: Seq<char>)
    requires
        forall|i: int| 0 <= i < name.len() ==> name[i] != '/',
    ensures
        segments(head + seq!['/'] + name) == segments(head).push(name),
    decreases head.len(),
{
    let whole = head + seq!['/'] + name;
    let end = leading(head, Class::SegmentBody) as int;
    lemma_leading(head, Class::SegmentBody);
    assert forall|i: int| 0 <= i < end implies Class::SegmentBody.has(whole[i]) by {
        assert(whole[i] == head[i]);
    }
    if end < head.len() {
        assert(whole[end] == head[end]);
    }
    lemma_leading_is(whole, Class::SegmentBody, end as nat);
    assert(whole.take(end) =~= head.take(end));
    if end < head.len() {
        lemma_segments_push(head.skip(end + 1), name);
        assert(whole.skip(end + 1) =~= head.skip(end + 1) + seq!['/'] + name);
        assert(segments(whole) =~= segments(head).push(name));
    } else {
        assert(whole.skip(end + 1) =~= name);
        lemma_leading_is(name, Class::SegmentBody, name.len());
        assert(segments(name) =~= seq![name]);
        assert(head.take(end) =~= head);
        assert(segments(whole) =~= segments(head).push(name));
    }
}

proof fn lemma_segment_parts_push(segs: Seq<Seq<char>>, seg: Seq<char>, first: bool)
    requires
        segs.len() > 0,
    ensures
        segment_parts(segs.push(seg), first) == segment_parts(segs, first) + segment_part(
            seg,
            false,
        ),
    decreases segs.len(),
{
    let all = segs.push(seg);
    assert(all.drop_first() =~= segs.drop_first().push(seg));
    if segs.len() == 1 {
        assert(segs.drop_first() =~= seq![]);
        assert(all.drop_first() =~= seq![seg]);
        assert(seq![seg].drop_first() =~= Seq::<Seq<char>>::empty());
        assert(segment_parts(seq![seg], false) =~= segment_part(seg, false)) by {
            assert(segment_parts(seq![seg].drop_first(), false) =~= seq![]);
        }
        assert(segment_parts(segs.drop_first(), false) =~= seq![]);
        assert(segment_parts(all, first) =~= segment_parts(segs, first) + segment_part(seg, false));
    } else {
        lemma_segment_parts_push(segs.drop_first(), seg, false);
        assert(segment_parts(all, first) =~= segment_parts(segs, first) + segment_part(seg, false));
    }
}

/// The text of well-formed components reads back as those components.
pub proof fn law_components_of_render(list: Seq<Part>)
    requires
        well_formed(list),
    ensures
        components(render(list)) == list,
        list.len() > 0 ==> render(list).len() > 0 && (render(list).last() == '/' <==> list
            =~= seq![Part::Root]),
    decreases list.len(),
{
    if list.len() == 0 {
        assert(segments(seq![]) =~= seq![Seq::<char>::empty()]);
        let one = seq![Seq::<char>::empty()];
        assert(one.drop_first() =~= seq![]);
        assert(segment_parts(one.drop_first(), false) =~= seq![]);
        assert(segment_parts(one, true) =~= seq![]);
        assert(components(render(list)) =~= list);
    } else {
        let head = list.drop_last();
        let last = list[list.len() - 1];
        assert forall|i: int| 0 <= i < head.len() implies match #[trigger] head[i] {
            Part::Root => i == 0,
            Part::Here => i == 0,
            Part::Up => true,
            Part::Name(name) => is_name(name),
        } by {
            assert(list[i] == head[i]);
        }
        law_components_of_render(head);
        let text = render(head);
        let piece = part_text(last);
        let empty = Seq::<char>::empty();
        if last is Root {
            assert(head =~= seq![]);
            let whole = render(list);
            assert(whole =~= seq!['/']);
            assert(whole =~= empty + seq!['/'] + empty);
            lemma_segments_push(empty, empty);
            lemma_segment_parts_push(segments(empty), empty, true);
            assert(segments(empty) =~= seq![empty]);
            assert(segment_parts(segments(empty), true) =~= seq![]) by {
                assert(seq![empty].drop_first() =~= seq![]);
                assert(segment_parts(seq![empty].drop_first(), false) =~= seq![]);
            }
            assert(components(whole) =~= list);
        } else {
            assert forall|i: int| 0 <= i < piece.len() implies piece[i] != '/' by {}
            assert(piece.len() > 0);
            let whole = render(list);
            assert(last is Here ==> head.len() == 0);
            assert(!(last is Here) ==> segment_part(piece, false) =~= seq![last]) by {
                if last is Up {
                    assert(piece.len() == 2);
                }
            }
            if head.len() == 0 {
                assert(whole =~= piece);
                lemma_leading_is(piece, Class::SegmentBody, piece.len());
                assert(segments(piece) =~= seq![piece]);
                assert(seq![piece].drop_first() =~= seq![]);
                assert(segment_parts(seq![piece].drop_first(), false) =~= seq![]);
                assert(segment_part(piece, true) =~= seq![last]);
                assert(components(whole) =~= list);
            } else if head =~= seq![Part::Root] {
                assert(head.drop_last() =~= seq![]);
                assert(render(head.drop_last()) =~= seq![]);
                assert(head.last() is Root);
                assert(text =~= seq!['/']);
                assert(whole =~= empty + seq!['/'] + piece);
                lemma_segments_push(empty, piece);
                lemma_segment_parts_push(segments(empty), piece, true);
                assert(segments(empty) =~= seq![empty]);
                assert(segment_parts(segments(empty), true) =~= seq![]) by {
                    assert(seq![empty].drop_first() =~= seq![]);
                    assert(segment_parts(seq![empty].drop_first(), false) =~= seq![]);
                }
                assert(components(whole) =~= list);
            } else {
                assert(whole == text + seq!['/'] + piece);
                lemma_segments_push(text, piece);
                lemma_segments_have_no_separator(text);
                lemma_segment_parts_push(segments(text), piece, true);
                assert(whole[0] == text[0]);
                assert(components(whole) =~= components(text) + seq![last]);
                assert(components(whole) =~= list);
            }
            assert(whole.last() == piece.last());
        }
    }
}

/// Joining again changes nothing: a path that was folded once reads the same
/// resolved against nothing, and, where it is absolute, against anything.
pub proof fn law_lexical_join_is_idempotent(base: Seq<char>, path: Seq<char>, other: Seq<char>)
    ensures
        lexical_path(seq![], lexical_path(base, path)) == lexical_path(base, path),
        is_absolute(lexical_path(base, path)) ==> lexical_path(other, lexical_path(base, path))
            == lexical_path(base, path),
{
    let list = components(path_join(base, path));
    lemma_components_well_formed(path_join(base, path));
    lemma_fold_well_formed(list);
    law_fold_is_folded(list);
    law_fold_is_idempotent(list);
    law_components_of_render(fold(list));
    let r = lexical_path(base, path);
    assert(path_join(seq![], r) =~= r);
}

/// A name joined to a path is one more component of it.
pub proof fn law_a_joined_name_is_one_more_component(base: Seq<char>, name: Seq<char>)
    requires
        is_name(name),
    ensures
        components(path_join(base, name)) == components(base).push(Part::Name(name)),
{
    let whole = path_join(base, name);
    let empty = Seq::<char>::empty();
    let last = Part::Name(name);
    assert(segment_part(name, false) =~= seq![last]);
    assert(segment_part(name, true) =~= seq![last]);
    assert(!is_absolute(name));
    if base.len() == 0 {
        assert(base =~= empty);
        assert(whole =~= name);
        lemma_leading_is(name, Class::SegmentBody, name.len());
        assert(segments(name) =~= seq![name]);
        assert(seq![name].drop_first() =~= seq![]);
        assert(segment_parts(seq![name].drop_first(), false) =~= seq![]);
        assert(segment_parts(seq![name], true) =~= seq![last]);
        assert(segments(base) =~= seq![empty]);
        assert(seq![empty].drop_first() =~= seq![]);
        assert(segment_parts(seq![empty].drop_first(), false) =~= seq![]);
        assert(components(base) =~= seq![]);
        assert(components(whole) =~= components(base).push(last));
    } else if base.last() == '/' {
        let head = base.drop_last();
        assert(base =~= head + seq!['/'] + empty);
        assert(whole =~= head + seq!['/'] + name);
        lemma_segments_push(head, empty);
        lemma_segments_push(head, name);
        lemma_segments_have_no_separator(head);
        lemma_segment_parts_push(segments(head), empty, true);
        lemma_segment_parts_push(segments(head), name, true);
        assert(whole[0] == base[0]);
        assert(segment_part(empty, false) =~= seq![]);
        assert(components(whole) =~= components(base).push(last));
    } else {
        lemma_segments_push(base, name);
        lemma_segments_have_no_separator(base);
        lemma_segment_parts_push(segments(base), name, true);
        assert(whole[0] == base[0]);
        assert(components(whole) =~= components(base).push(last));
    }
}

/// A list of segments put together with separators is those segments again.
proof fn lemma_segments_of_join(segs: Seq<Seq<char>>)
    requires
        segs.len() > 0,
        forall|k: int, i: int|
            0 <= k < segs.len() && 0 <= i < segs[k].len() ==> #[trigger] segs[k][i] != '/',
    ensures
        segments(join(segs, seq!['/'])) == segs,
    decreases segs.len(),
{
    let sep = seq!['/'];
    let last = segs.last();
    assert forall|i: int| 0 <= i < last.len() implies last[i] != '/' by {
        assert(segs[segs.len() - 1][i] != '/');
    }
    if segs.len() == 1 {
        assert(segs.drop_first() =~= seq![]);
        assert(join(segs, sep) =~= last);
        lemma_leading_is(last, Class::SegmentBody, last.len());
        assert(segments(last) =~= segs);
    } else {
        let head = segs.drop_last();
        assert forall|k: int, i: int|
            0 <= k < head.len() && 0 <= i < head[k].len() implies #[trigger] head[k][i] != '/' by {
            assert(segs[k][i] != '/');
        }
        lemma_segments_of_join(head);
        lemma_join_push(head, last, sep);
        assert(head.push(last) =~= segs);
        lemma_segments_push(join(head, sep), last);
    }
}

proof fn lemma_separated_push(list: Seq<Seq<char>>, x: Seq<char>, sep: Seq<char>)
    ensures
        separated(list.push(x), sep) == separated(list, sep) + sep + x,
    decreases list.len(),
{
    if list.len() == 0 {
        let one = list.push(x);
        assert(one.drop_first() =~= seq![]);
        assert(separated(one.drop_first(), sep) =~= seq![]);
        assert(separated(one, sep) =~= separated(list, sep) + sep + x);
    } else {
        lemma_separated_push(list.drop_first(), x, sep);
        assert(list.push(x).drop_first() =~= list.drop_first().push(x));
        assert(separated(list.push(x), sep) =~= separated(list, sep) + sep + x);
    }
}

proof fn lemma_join_push(list: Seq<Seq<char>>, x: Seq<char>, sep: Seq<char>)
    requires
        list.len() > 0,
    ensures
        join(list.push(x), sep) == join(list, sep) + sep + x,
{
    lemma_separated_push(list.drop_first(), x, sep);
    assert(list.push(x).drop_first() =~= list.drop_first().push(x));
    assert(join(list.push(x), sep) =~= join(list, sep) + sep + x);
}

/// The segments past the one that names the file say nothing.
proof fn lemma_past_last_named(segs: Seq<Seq<char>>, first: bool)
    requires
        last_named(segs) >= 0,
    ensures
        segment_parts(segs, first) == segment_parts(segs.take(last_named(segs) + 1), first),
    decreases segs.len(),
{
    let k = last_named(segs);
    lemma_last_named(segs);
    let n = segs.len() - 1;
    if k == n {
        assert(segs.take(k + 1) =~= segs);
    } else {
        let head = segs.drop_last();
        lemma_past_last_named(head, first);
        lemma_last_named(head);
        assert(head.take(k + 1) =~= segs.take(k + 1));
        assert(head.push(segs[n]) =~= segs);
        lemma_segment_parts_push(head, segs[n], first);
        assert(segment_part(segs[n], false) =~= seq![]);
        assert(segment_parts(head, first) + seq![] =~= segment_parts(head, first));
    }
}

/// The segment that names the file, wherever it stands, adds its name.
proof fn lemma_name_is_last(segs: Seq<Seq<char>>, k: int, name: Seq<char>)
    requires
        0 <= k < segs.len(),
        is_name(name),
    ensures
        segment_parts(segs.take(k).push(name), true) == segment_parts(segs.take(k), true).push(
            Part::Name(name),
        ),
{
    let front = segs.take(k);
    assert(segment_part(name, false) =~= seq![Part::Name(name)]);
    assert(segment_part(name, true) =~= seq![Part::Name(name)]);
    if k == 0 {
        assert(front =~= seq![]);
        let one = front.push(name);
        assert(one.drop_first() =~= seq![]);
        assert(segment_parts(one.drop_first(), false) =~= seq![]);
        assert(segment_parts(one, true) =~= seq![Part::Name(name)]);
    } else {
        lemma_segment_parts_push(front, name, true);
    }
}

/// A path with another extension lies beside the one without: all its components are
/// the same but the last, and that has the same stem.
pub proof fn law_another_extension_stays_beside(path: Seq<char>, ext: Seq<char>)
    requires
        file_name(path) is Some,
        ext.len() > 0,
        forall|i: int| 0 <= i < ext.len() ==> ext[i] != '/',
    ensures
        ({
            let name = file_name(path)->0;
            let other = name.take(stem_len(name)) + seq!['.'] + ext;
            &&& components(path).len() > 0
            &&& components(path).last() == Part::Name(name)
            &&& components(with_extension(path, ext)) == components(path).drop_last().push(
                Part::Name(other),
            )
        }),
{
    let segs = segments(path);
    let k = last_named(segs);
    let name = file_name(path)->0;
    let stem = stem_len(name);
    let other = name.take(stem) + seq!['.'] + ext;
    lemma_segments_have_no_separator(path);
    lemma_last_named(segs);
    lemma_named_not_empty(segs);
    lemma_trailing(name, Class::DotFree);
    assert forall|i: int| 0 <= i < name.len() implies name[i] != '/' by {
        assert(segs[k][i] != '/');
    }
    assert(is_name(name));
    assert(0 < stem <= name.len());
    assert forall|i: int| 0 <= i < other.len() implies other[i] != '/' by {
        if i < stem {
            assert(other[i] == name[i]);
        } else if i > stem {
            assert(other[i] == ext[i - stem - 1]);
        }
    }
    assert(other.len() >= 3);
    assert(is_name(other));

    // The path as it is.
    lemma_past_last_named(segs, true);
    assert(segs.take(k + 1) =~= segs.take(k).push(name));
    lemma_name_is_last(segs, k, name);
    assert(components(path).last() == Part::Name(name));

    // The path with the other extension.
    let list = segs.take(k).push(other);
    assert forall|a: int, i: int|
        0 <= a < list.len() && 0 <= i < list[a].len() implies #[trigger] list[a][i] != '/' by {
        if a < k {
            assert(segs[a][i] != '/');
        }
    }
    lemma_segments_of_join(list);
    let whole = with_extension(path, ext);
    assert(segments(whole) == list);
    lemma_name_is_last(segs, k, other);
    assert(is_absolute(whole) == is_absolute(path)) by {
        lemma_absolute_by_segments(path);
        lemma_absolute_by_segments(whole);
        if k > 0 {
            assert(list[0] == segs[0]);
        } else {
            assert(list[0] == other);
            assert(segs[0] == name);
        }
        assert(whole.len() > 0) by {
            if whole.len() == 0 {
                assert(segments(whole) =~= seq![whole]);
                assert(list.last() == whole);
            }
        }
    }
    assert(components(whole) =~= components(path).drop_last().push(Part::Name(other)));
}

/// The segment that names the file is not empty.
proof fn lemma_named_not_empty(segs: Seq<Seq<char>>)
    ensures
        last_named(segs) >= 0 ==> segs[last_named(segs)].len() > 0,
    decreases segs.len(),
{
    if segs.len() > 0 {
        lemma_named_not_empty(segs.drop_last());
        lemma_last_named(segs.drop_last());
    }
}

/// A path is absolute exactly when it is not empty and its first segment is.
proof fn lemma_absolute_by_segments(path: Seq<char>)
    ensures
        is_absolute(path) <==> path.len() > 0 && segments(path)[0].len() == 0,
{
    lemma_leading(path, Class::SegmentBody);
    let end = leading(path, Class::SegmentBody) as int;
    if path.len() > 0 && path[0] != '/' {
        assert(end > 0) by {
            assert(Class::SegmentBody.has(path[0]));
        }
    }
    if is_absolute(path) {
        lemma_leading_is(path, Class::SegmentBody, 0);
    }
}

// ---------------------------------------------------------------------------
// Names and extensions.
// ---------------------------------------------------------------------------

/// The name of a file in a directory is its file name, and its extension is what stands
/// behind the last dot, whatever the directory is and however many dots are in front; a
/// name without a dot has none, nor does one whose only dot it begins with.
pub proof fn law_an_extension_is_behind_the_last_dot(
    dir: Seq<char>,
    stem: Seq<char>,
    ext: Seq<char>,
    plain: Seq<char>,
)
    requires
        stem.len() > 0,
        is_name(stem + seq!['.'] + ext),
        is_name(plain),
        forall|i: int| 0 <= i < ext.len() ==> ext[i] != '.',
        forall|i: int| 1 <= i < plain.len() ==> plain[i] != '.',
    ensures
        file_name(dir + seq!['/'] + (stem + seq!['.'] + ext)) == Some(stem + seq!['.'] + ext),
        extension(dir + seq!['/'] + (stem + seq!['.'] + ext)) == Some(ext),
        file_name(dir + seq!['/'] + plain) == Some(plain),
        extension(dir + seq!['/'] + plain) is None,
{
    let name = stem + seq!['.'] + ext;
    lemma_named_file(dir, name);
    lemma_named_file(dir, plain);
    let dot = stem.len() as int;
    assert forall|i: int| name.len() - ext.len() <= i < name.len() implies Class::DotFree.has(
        name[i],
    ) by {
        assert(name[i] == ext[i - dot - 1]);
    }
    assert(name[name.len() - ext.len() - 1] == '.');
    lemma_trailing_is(name, Class::DotFree, ext.len());
    assert(name.skip(stem_len(name) + 1) =~= ext);
    lemma_trailing(plain, Class::DotFree);
    let t = trailing(plain, Class::DotFree) as int;
    if t < plain.len() - 1 {
        assert(plain[plain.len() - t - 1] == '.');
    }
}

proof fn lemma_named_file(dir: Seq<char>, name: Seq<char>)
    requires
        is_name(name),
    ensures
        file_name(dir + seq!['/'] + name) == Some(name),
{
    lemma_segments_push(dir, name);
    let segs = segments(dir).push(name);
    assert(segs.last() == name);
    assert(last_named(segs) == segs.len() - 1);
}

/// A path that goes down and back up again is the path that never went, and one that stays
/// where it is goes nowhere; what else a path goes through, it goes through in order.
pub proof fn law_a_step_back_takes_back_a_step(
    list: Seq<Part>,
    name: Seq<char>,
    rest: Seq<Part>,
)
    ensures
        fold(list + (seq![Part::Name(name), Part::Up] + rest)) == fold(list + rest),
        fold(list + (seq![Part::Here] + rest)) == fold(list + rest),
        fold(list.push(Part::Name(name))) == fold(list).push(Part::Name(name)),
        fold(seq![Part::Root]) == seq![Part::Root],
        fold(seq![Part::Root, Part::Up]) == seq![Part::Root],
    decreases rest.len(),
{
    let down = list + seq![Part::Name(name), Part::Up];
    assert(down.drop_last() =~= list.push(Part::Name(name)));
    assert(list.push(Part::Name(name)).drop_last() =~= list);
    let inner = fold(list).push(Part::Name(name));
    assert(fold(list.push(Part::Name(name))) == inner);
    assert(inner.drop_last() =~= fold(list));
    assert(down.last() == Part::Up);
    assert(inner.last() is Name);
    assert(fold(down) == inner.drop_last());
    let here = list + seq![Part::Here];
    assert(here.drop_last() =~= list);
    assert(fold(here) == fold(list));
    let root = seq![Part::Root];
    assert(root.drop_last() =~= seq![]);
    assert(fold(root.drop_last()) =~= seq![]);
    assert(fold(root) =~= seq![Part::Root]);
    let up = seq![Part::Root, Part::Up];
    assert(up.drop_last() =~= root);
    assert(fold(up) == fold(root));
    if rest.len() == 0 {
        assert(list + (seq![Part::Name(name), Part::Up] + rest) =~= down);
        assert(list + (seq![Part::Here] + rest) =~= here);
        assert(list + rest =~= list);
    } else {
        let most = rest.drop_last();
        law_a_step_back_takes_back_a_step(list, name, most);
        let a = list + (seq![Part::Name(name), Part::Up] + rest);
        let b = list + (seq![Part::Here] + rest);
        let c = list + rest;
        assert(a.drop_last() =~= list + (seq![Part::Name(name), Part::Up] + most));
        assert(b.drop_last() =~= list + (seq![Part::Here] + most));
        assert(c.drop_last() =~= list + most);
        assert(a.last() == rest.last() && b.last() == rest.last() && c.last() == rest.last());
    }
}

/// A path is taken from its base, unless it says all by itself where it leads.
pub proof fn law_an_absolute_path_has_no_base(base: Seq<char>, path: Seq<char>)
    ensures
        path.len() > 0 && path[0] == '/' ==> path_join(base, path) == path && lexical_path(
            base,
            path,
        ) == render(fold(components(path))),
        (path.len() == 0 || path[0] != '/') && base.len() > 0 && base.last() != '/' ==> path_join(
            base,
            path,
        ) == base + seq!['/'] + path,
        (path.len() == 0 || path[0] != '/') && (base.len() == 0 || base.last() == '/')
            ==> path_join(base, path) == base + path,
{
}

/// Two spellings of a path are the same path if and only if they go through the same
/// components, so a separator too many at the end makes no difference.
pub proof fn law_a_separator_too_many_makes_no_difference(path: Seq<char>, other: Seq<char>)
    ensures
        same_path(path, other) <==> components(path) == components(other),
        path.len() > 0 ==> same_path(path, path + seq!['/']),
{
    if path.len() > 0 {
        let empty = Seq::<char>::empty();
        let long = path + seq!['/'] + empty;
        assert(long =~= path + seq!['/']);
        lemma_segments_push(path, empty);
        lemma_segments_have_no_separator(path);
        lemma_segment_parts_push(segments(path), empty, true);
        assert(segment_part(empty, false) =~= seq![]);
        assert(long[0] == path[0]);
        assert(components(long) =~= components(path));
    }
}

/// Steps back that have nothing to take back are kept.
pub proof fn law_steps_out_of_a_relative_path_are_kept(list: Seq<Part>, more: Seq<Part>)
    requires
        forall|i: int| 0 <= i < list.len() ==> list[i] is Up,
        forall|i: int| 0 <= i < more.len() ==> more[i] is Name,
    ensures
        fold(list + more) == list + more,
    decreases list.len() + more.len(),
{
    let all = list + more;
    if more.len() > 0 {
        law_steps_out_of_a_relative_path_are_kept(list, more.drop_last());
        assert(all.drop_last() =~= list + more.drop_last());
        assert(all.last() == more.last());
        assert((list + more.drop_last()).push(more.last()) =~= all);
    } else if list.len() > 0 {
        let head = list.drop_last();
        law_steps_out_of_a_relative_path_are_kept(head, more);
        assert(all =~= list);
        assert(head + more =~= head);
        assert(all.drop_last() =~= head);
        if head.len() > 0 {
            assert(head.last() == list[list.len() - 2]);
        }
        assert(head.push(list.last()) =~= list);
    }
}

} // verus!

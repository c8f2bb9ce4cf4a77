//! What the process around a run had to say, as plain values.
//!
//! Environment variables, the working directory and the marker files beside the
//! test binary are read once, by whoever drives the run, and handed in here.
use crate::text::strings;
use vstd::prelude::*;

verus! {

/// What a run reads from the process around it.
#[derive(Debug)]
pub struct Environment {
    /// `NOCOMPILE`, where it is set and is Unicode.
    pub overwrite: Option<String>,
    /// `CARGO_HOME`, where it is set.
    pub cargo_home: Option<String>,
    /// `HOME`, where it is set.
    pub home: Option<String>,
    /// `CARGO_TARGET_DIR`, where it is set.
    pub target_dir: Option<String>,
    /// The working directory, where it can be determined.
    pub current_dir: Option<String>,
    /// Every directory above the test binary, the nearest first, each with
    /// whether a `CACHEDIR.TAG` file lies directly in it.
    pub ancestors: Vec<(String, bool)>,
    /// The name of every environment variable.
    pub variables: Vec<String>,
}

/// What a run reads from the process around it, as a value to reason about.
pub struct Surroundings {
    pub overwrite: Option<Seq<char>>,
    pub cargo_home: Option<Seq<char>>,
    pub home: Option<Seq<char>>,
    pub target_dir: Option<Seq<char>>,
    pub current_dir: Option<Seq<char>>,
    pub ancestors: Seq<(Seq<char>, bool)>,
    pub variables: Seq<Seq<char>>,
}

/// The text of an optional string.
pub open spec fn optional(s: Option<String>) -> Option<Seq<char>> {
    match s {
        Some(text) => Some(text@),
        None => None,
    }
}

/// The text of each path in a list, with what was found there.
pub open spec fn probed(list: Seq<(String, bool)>) -> Seq<(Seq<char>, bool)> {
    list.map_values(|p: (String, bool)| (p.0@, p.1))
}

impl View for Environment {
    type V = Surroundings;

    open spec fn view(&self) -> Surroundings {
        Surroundings {
            overwrite: optional(self.overwrite),
            cargo_home: optional(self.cargo_home),
            home: optional(self.home),
            target_dir: optional(self.target_dir),
            current_dir: optional(self.current_dir),
            ancestors: probed(self.ancestors@),
            variables: strings(self.variables@),
        }
    }
}

/// The first directory in the list that was found to be marked.
pub open spec fn first_marked(list: Seq<(Seq<char>, bool)>) -> Option<Seq<char>>
    decreases list.len(),
{
    if list.len() == 0 {
        None
    } else if list[0].1 {
        Some(list[0].0)
    } else {
        first_marked(list.drop_first())
    }
}

/// A copy of an optional string.
pub fn copied(s: &Option<String>) -> (r: Option<String>)
    ensures
        optional(r) == optional(*s),
{
    match s {
        Some(text) => Some(text.clone()),
        None => None,
    }
}

/// The first directory that is marked is the one, whatever is marked behind it.
pub proof fn law_the_first_marked_directory_counts(
    before: Seq<(Seq<char>, bool)>,
    dir: Seq<char>,
    after: Seq<(Seq<char>, bool)>,
)
    requires
        forall|i: int| 0 <= i < before.len() ==> !(#[trigger] before[i]).1,
    ensures
        first_marked(before + (seq![(dir, true)] + after)) == Some(dir),
        first_marked(before) is None,
    decreases before.len(),
{
    let all = before + (seq![(dir, true)] + after);
    if before.len() == 0 {
        assert(all[0] == (dir, true));
    } else {
        let rest = before.drop_first();
        assert(!before[0].1);
        assert forall|i: int| 0 <= i < rest.len() implies !(#[trigger] rest[i]).1 by {
            assert(rest[i] == before[i + 1]);
        }
        law_the_first_marked_directory_counts(rest, dir, after);
        assert(all[0] == before[0]);
        assert(all.drop_first() =~= rest + (seq![(dir, true)] + after));
    }
}

} // verus!

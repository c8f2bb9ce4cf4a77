use nocompile::lists::{ENTRY_COLUMN, SUMMARY};
use nocompile::normalize::Normalizer;
use nocompile::rewrite::{placeholder, replace_dir};

/// The parts in order.
fn cat(parts: &[&str]) -> String {
    parts.concat()
}

fn normalizer() -> Normalizer {
    Normalizer {
        scratch_absolute: "/w/target/nocompile/host/project/src/bin/f_a.rs".into(),
        scratch_relative: "src/bin/f_a.rs".into(),
        bin: "f_a".into(),
        scratch_root: "/w/target/nocompile/host".into(),
        manifest_dir: "/w".into(),
        cargo_home: Some("/home/u/.cargo".into()),
        dependencies: Vec::new(),
    }
}

fn with_deps(deps: &[(&str, &str)]) -> Normalizer {
    let mut n = normalizer();
    n.dependencies = deps
        .iter()
        .map(|(path, name)| ((*path).to_string(), placeholder(name)))
        .collect();
    n.dependencies
        .sort_by_key(|(path, _)| std::cmp::Reverse(path.len()));
    n
}

#[test]
fn rewrites_the_scratch_main_to_the_fixture() {
    let out = normalizer().normalize(" --> src/bin/f_a.rs:4:9\n", "tests/ui/a.rs");
    assert_eq!(out, " --> tests/ui/a.rs:4:9\n");
}

#[test]
fn rewrites_the_absolute_scratch_main_to_the_fixture() {
    let out = normalizer().normalize(
        "note: at /w/target/nocompile/host/project/src/bin/f_a.rs:1:1\n",
        "tests/ui/a.rs",
    );
    assert_eq!(out, "note: at tests/ui/a.rs:1:1\n");
}

#[test]
fn rewrites_the_scratch_root_before_the_manifest_dir() {
    let out = normalizer().normalize("note: /w/target/nocompile/host/target/debug\n", "f.rs");
    assert_eq!(out, "note: $SCRATCH/target/debug\n");
}

#[test]
fn rewrites_the_host_manifest_dir() {
    let out = normalizer().normalize("note: /w/src/lib.rs:9:1\n", "f.rs");
    assert_eq!(out, "note: $DIR/src/lib.rs:9:1\n");
}

#[test]
fn rewrites_registry_paths_without_their_index_hash() {
    let out = normalizer().normalize(
        "note: /home/u/.cargo/registry/src/index.crates.io-1949cf8c6b5b557f/dep-1.0/src/x.rs:3:1\n",
        "f.rs",
    );
    assert_eq!(out, "note: $CARGO_REGISTRY/dep-1.0/src/x.rs:3:1\n");
}

#[test]
fn rewrites_other_cargo_home_paths() {
    let out = normalizer().normalize("note: /home/u/.cargo/git/checkouts/x\n", "f.rs");
    assert_eq!(out, "note: $CARGO_HOME/git/checkouts/x\n");
}

#[test]
fn leaves_the_fixtures_own_source_text_alone() {
    // The snippet quotes the fixture. Rewriting inside it would misquote the
    // code under test and misalign the carets beneath. `src/main.rs` is the
    // kind of path a fixture really might contain; the generated bin name is
    // not, which is what makes replacing *that* one globally safe.
    let out = normalizer().normalize("2 |     let _x = \"src/main.rs\";\n", "tests/ui/a.rs");
    assert_eq!(out, "2 |     let _x = \"src/main.rs\";\n");
}

#[test]
fn rewrites_the_generated_bin_path_outside_a_span_header() {
    // rustc names it in prose for a fixture with no `fn main`, and a golden
    // must not record a file the reader does not have.
    let out = normalizer().normalize(
        "  | consider adding a `main` function to `src/bin/f_a.rs`\n",
        "tests/ui/a.rs",
    );
    assert_eq!(
        out,
        "  | consider adding a `main` function to `tests/ui/a.rs`\n"
    );
}

#[test]
fn rewrites_the_generated_crate_name() {
    // The bin name is the crate name. It is a harness detail, and it would
    // otherwise be the one thing in the golden that no reader can explain.
    let out = normalizer().normalize(
        "error[E0601]: `main` function not found in crate `f_a`\n",
        "tests/ui/a.rs",
    );
    assert_eq!(
        out,
        "error[E0601]: `main` function not found in crate `$CRATE`\n"
    );
}

#[test]
fn leaves_a_dependencys_own_main_alone() {
    let out = normalizer().normalize(" --> /w/dep/src/main.rs:1:1\n", "tests/ui/a.rs");
    assert_eq!(out, " --> $DIR/dep/src/main.rs\n");
}

#[test]
fn registry_paths_without_a_trailing_component_keep_their_text() {
    let out = normalizer().normalize("note: /home/u/.cargo/registry/src/index-abc\n", "f.rs");
    assert_eq!(out, "note: $CARGO_REGISTRY/index-abc\n");
}

#[test]
fn strips_trailing_whitespace_and_carriage_returns() {
    let out = normalizer().normalize("error: x   \r\n  |   \r\n", "f.rs");
    assert_eq!(out, "error: x\n  |\n");
}

#[test]
fn ends_with_exactly_one_newline() {
    assert_eq!(
        normalizer().normalize("error: x\n\n\n", "f.rs"),
        "error: x\n"
    );
    assert_eq!(normalizer().normalize("error: x", "f.rs"), "error: x\n");
}

#[test]
fn empty_input_stays_empty() {
    assert_eq!(normalizer().normalize("", "f.rs"), "");
}

#[test]
fn new_reads_the_paths_it_is_given() {
    let n = Normalizer::new("/s", "/s/project/src/bin/f_a.rs", "f_a", "/h", &[], None);
    assert_eq!(n.scratch_root, "/s");
    assert_eq!(n.scratch_absolute, "/s/project/src/bin/f_a.rs");
    assert_eq!(n.manifest_dir, "/h");
}

#[test]
fn a_dependency_outside_the_host_crate_gets_a_placeholder() {
    // The case a golden cannot survive without: a sibling checkout, whose
    // absolute path differs on every machine and in every worktree.
    let n = with_deps(&[("/elsewhere/core", "my-core")]);
    let out = n.normalize(" --> /elsewhere/core/src/event.rs:524:1\n", "tests/ui/a.rs");
    assert_eq!(out, " --> $MY_CORE/src/event.rs\n");
}

#[test]
fn dependency_placeholders_uppercase_and_underscore_the_name() {
    assert_eq!(placeholder("my-core"), "$MY_CORE");
    assert_eq!(placeholder("core"), "$CORE");
}

#[test]
fn a_dependency_inside_the_host_crate_stays_under_dir() {
    // `$DIR` already says everything portable there is to say.
    let n = with_deps(&[("/w/sub", "sub")]);
    let out = n.normalize(" --> /w/sub/src/lib.rs:3:1\n", "tests/ui/a.rs");
    assert_eq!(out, " --> $DIR/sub/src/lib.rs\n");
}

#[test]
fn a_nested_dependency_wins_over_the_one_containing_it() {
    let n = with_deps(&[("/deps", "outer"), ("/deps/inner", "inner")]);
    let out = n.normalize(" --> /deps/inner/src/lib.rs:1:1\n", "tests/ui/a.rs");
    assert_eq!(out, " --> $INNER/src/lib.rs\n");
}

#[test]
fn a_secondary_span_is_treated_like_a_primary_one() {
    let n = with_deps(&[("/elsewhere/core", "core")]);
    let out = n.normalize(" ::: /elsewhere/core/src/lib.rs:9:5\n", "tests/ui/a.rs");
    assert_eq!(out, " ::: $CORE/src/lib.rs\n");
}

#[test]
fn a_foreign_snippet_loses_its_gutter_line_numbers() {
    // Without this the golden still pins the dependency's line numbers, one
    // gutter row down from the span header that was just cleaned. Adding a
    // line anywhere above would re-bless the golden.
    let n = with_deps(&[("/elsewhere/core", "core")]);
    let rendered = cat(&[
        "error[E0277]: the trait bound is not satisfied\n",
        "   --> /elsewhere/core/src/lib.rs:524:1\n",
        "    |\n",
        "524 | pub struct Event;\n",
        "    | ^^^^^^^^^^^^^^^^\n",
        "    = note: required by this bound\n",
    ]);
    assert_eq!(
        n.normalize(&rendered, "tests/ui/a.rs"),
        cat(&[
            "error[E0277]: the trait bound is not satisfied\n",
            // The gutter shrinks with the numbers: nothing in the golden is
            // sized by where the dependency puts its code.
            " --> $CORE/src/lib.rs\n",
            "  |\n",
            "  | pub struct Event;\n",
            "  | ^^^^^^^^^^^^^^^^\n",
            "  = note: required by this bound\n",
        ])
    );
}

#[test]
fn the_fixtures_own_snippet_keeps_its_gutter_line_numbers() {
    let rendered = cat(&[
        "error[E0308]: mismatched types\n",
        " --> src/bin/f_a.rs:4:17\n",
        "  |\n",
        "4 |     let _x: u8 = \"s\";\n",
        "  |             --   ^^^ expected `u8`\n",
    ]);
    assert_eq!(
        normalizer().normalize(&rendered, "tests/ui/a.rs"),
        cat(&[
            "error[E0308]: mismatched types\n",
            " --> tests/ui/a.rs:4:17\n",
            "  |\n",
            "4 |     let _x: u8 = \"s\";\n",
            "  |             --   ^^^ expected `u8`\n",
        ])
    );
}

#[test]
fn an_elision_marker_does_not_end_a_foreign_snippet() {
    let n = with_deps(&[("/elsewhere/core", "core")]);
    let rendered = cat(&[
        " --> /elsewhere/core/src/lib.rs:10:1\n",
        "10 | fn a() {}\n",
        "...\n",
        "90 | fn b() {}\n",
    ]);
    assert_eq!(
        n.normalize(&rendered, "tests/ui/a.rs"),
        cat(&[
            " --> $CORE/src/lib.rs\n",
            "   | fn a() {}\n",
            "...\n",
            "   | fn b() {}\n",
        ])
    );
}

#[test]
fn blanking_a_gutter_stops_at_the_next_diagnostic() {
    // The run must not eat the following error's own numbered snippet.
    let n = with_deps(&[("/elsewhere/core", "core")]);
    let rendered = cat(&[
        " --> /elsewhere/core/src/lib.rs:5:1\n",
        "5 | struct A;\n",
        "error[E0308]: mismatched types\n",
        " --> src/bin/f_a.rs:7:1\n",
        "7 | let _x: u8 = \"s\";\n",
    ]);
    assert_eq!(
        n.normalize(&rendered, "tests/ui/a.rs"),
        cat(&[
            " --> $CORE/src/lib.rs\n",
            "  | struct A;\n",
            "error[E0308]: mismatched types\n",
            " --> tests/ui/a.rs:7:1\n",
            "7 | let _x: u8 = \"s\";\n",
        ])
    );
}

#[test]
fn a_dependencys_line_count_does_not_widen_the_fixtures_gutter() {
    // rustc sizes the gutter to the widest line number anywhere in the
    // diagnostic, so `508` in a dependency renders the *fixture's* own
    // snippet three columns wide. Blanking the digits without reclaiming the
    // width leaves the golden recording where the dependency puts its code,
    // one indirection removed: moving `take` to line 1008 would re-bless
    // every row here.
    let n = with_deps(&[("/elsewhere/core", "core")]);
    let rendered = cat(&[
        "error[E0277]: the trait bound `Widget: Sealed` is not satisfied\n",
        "   --> src/bin/f_a.rs:2:15\n",
        "    |\n",
        "  2 |     dep::take(dep::Widget);\n",
        "    |     --------- ^^^^^^^^^^^ the trait `Sealed` is not implemented\n",
        "    |     |\n",
        "    |     required by a bound introduced by this call\n",
        "    |\n",
        "note: required by a bound in `dep::take`\n",
        "   --> /elsewhere/core/src/lib.rs:508:16\n",
        "    |\n",
        "508 | pub fn take<T: Sealed>(_t: T) {}\n",
        "    |                ^^^^^^ required by this bound in `take`\n",
    ]);
    assert_eq!(
        n.normalize(&rendered, "tests/ui/a.rs"),
        cat(&[
            "error[E0277]: the trait bound `Widget: Sealed` is not satisfied\n",
            " --> tests/ui/a.rs:2:15\n",
            "  |\n",
            "2 |     dep::take(dep::Widget);\n",
            "  |     --------- ^^^^^^^^^^^ the trait `Sealed` is not implemented\n",
            "  |     |\n",
            "  |     required by a bound introduced by this call\n",
            "  |\n",
            "note: required by a bound in `dep::take`\n",
            " --> $CORE/src/lib.rs\n",
            "  |\n",
            "  | pub fn take<T: Sealed>(_t: T) {}\n",
            "  |                ^^^^^^ required by this bound in `take`\n",
        ])
    );
}

#[test]
fn a_suggestion_diff_moves_with_the_gutter() {
    // The `-`/`+` rows rustc renders a rewrite as carry a line number but no
    // `|`. Missing them would leave them behind while everything around them
    // moved.
    let n = with_deps(&[("/elsewhere/core", "core")]);
    let rendered = cat(&[
        "error[E0308]: mismatched types\n",
        "    --> src/bin/f_a.rs:2:19\n",
        "     |\n",
        "   2 |     let _x: i64 = 1u32;\n",
        "     |             ---   ^^^^ expected `i64`, found `u32`\n",
        "note: expected because of this\n",
        "    --> /elsewhere/core/src/lib.rs:1205:11\n",
        "     |\n",
        "1205 | pub const N: i64 = 0;\n",
        "     |           ^^^\n",
        "help: change the type of the numeric literal from `u32` to `i64`\n",
        "     |\n",
        "   2 -     let _x: i64 = 1u32;\n",
        "   2 +     let _x: i64 = 1i64;\n",
        "     |\n",
    ]);
    assert_eq!(
        n.normalize(&rendered, "tests/ui/a.rs"),
        cat(&[
            "error[E0308]: mismatched types\n",
            " --> tests/ui/a.rs:2:19\n",
            "  |\n",
            "2 |     let _x: i64 = 1u32;\n",
            "  |             ---   ^^^^ expected `i64`, found `u32`\n",
            "note: expected because of this\n",
            " --> $CORE/src/lib.rs\n",
            "  |\n",
            "  | pub const N: i64 = 0;\n",
            "  |           ^^^\n",
            "help: change the type of the numeric literal from `u32` to `i64`\n",
            "  |\n",
            "2 -     let _x: i64 = 1u32;\n",
            "2 +     let _x: i64 = 1i64;\n",
            "  |\n",
        ])
    );
}

#[test]
fn a_wrapped_note_moves_with_the_gutter() {
    // rustc splits a long `expected`/`found` pair over two lines and aligns
    // the second under the first. It is placed by the gutter without being
    // part of it, so it has to move and must not constrain the cut.
    let n = with_deps(&[("/elsewhere/core", "core")]);
    let rendered = cat(&[
        "error[E0308]: mismatched types\n",
        "    --> src/bin/f_a.rs:6:10\n",
        "     |\n",
        "   6 |     want(v);\n",
        "     |     ---- ^ expected `Alpha`, found `Beta`\n",
        "     |\n",
        "     = note: expected struct `Vec<HashMap<_, Alpha>>`\n",
        "                found struct `Vec<HashMap<_, Beta>>`\n",
        "note: function defined here\n",
        "    --> /elsewhere/core/src/lib.rs:1205:8\n",
        "     |\n",
        "1205 | pub fn want(_v: Vec<HashMap<String, Alpha>>) {}\n",
        "     |        ^^^^\n",
    ]);
    assert_eq!(
        n.normalize(&rendered, "tests/ui/a.rs"),
        cat(&[
            "error[E0308]: mismatched types\n",
            " --> tests/ui/a.rs:6:10\n",
            "  |\n",
            "6 |     want(v);\n",
            "  |     ---- ^ expected `Alpha`, found `Beta`\n",
            "  |\n",
            "  = note: expected struct `Vec<HashMap<_, Alpha>>`\n",
            "             found struct `Vec<HashMap<_, Beta>>`\n",
            "note: function defined here\n",
            " --> $CORE/src/lib.rs\n",
            "  |\n",
            "  | pub fn want(_v: Vec<HashMap<String, Alpha>>) {}\n",
            "  |        ^^^^\n",
        ])
    );
}

#[test]
fn the_elision_marker_keeps_its_place_when_the_gutter_shrinks() {
    // rustc prints `...` flush left and pads *after* it, so its padding
    // starts three columns in. Cutting from column 0 would eat the dots.
    let n = with_deps(&[("/elsewhere/core", "core")]);
    let rendered = cat(&[
        "error[E0308]: `match` arms have incompatible types\n",
        "    --> src/bin/f_a.rs:5:14\n",
        "     |\n",
        "   2 |       let _x: u8 = match n {\n",
        "     |  __________________-\n",
        "   3 | |         0 => 0u8,\n",
        "...    |\n",
        "   5 | |         _ => \"s\",\n",
        "     | |              ^^^ expected `u8`, found `&str`\n",
        "note: required by a bound in `dep::pick`\n",
        "    --> /elsewhere/core/src/lib.rs:1202:16\n",
        "     |\n",
        "1202 | pub fn pick<T: Copy>(_t: T) {}\n",
        "     |                ^^^^\n",
    ]);
    assert_eq!(
        n.normalize(&rendered, "tests/ui/a.rs"),
        cat(&[
            "error[E0308]: `match` arms have incompatible types\n",
            " --> tests/ui/a.rs:5:14\n",
            "  |\n",
            "2 |       let _x: u8 = match n {\n",
            "  |  __________________-\n",
            "3 | |         0 => 0u8,\n",
            "... |\n",
            "5 | |         _ => \"s\",\n",
            "  | |              ^^^ expected `u8`, found `&str`\n",
            "note: required by a bound in `dep::pick`\n",
            " --> $CORE/src/lib.rs\n",
            "  |\n",
            "  | pub fn pick<T: Copy>(_t: T) {}\n",
            "  |                ^^^^\n",
        ])
    );
}

#[test]
fn a_message_spanning_several_lines_still_re_aligns() {
    // A `compile_error!` containing a newline puts the rest of its message
    // between the heading and the span header, indented to the width of
    // `error: ` rather than to the gutter -- so it stays where it is while
    // everything the gutter does place moves.
    let n = with_deps(&[("/elsewhere/core", "core")]);
    let rendered = cat(&[
        "error: MYLIB-E001: expected a struct with named fields\n",
        "       found a tuple struct\n",
        "    --> src/bin/f_a.rs:6:9\n",
        "     |\n",
        "   6 |     derive_it!();\n",
        "     |     ^^^^^^^^^^^^\n",
        "note: in this expansion of `derive_it!`\n",
        "    --> /elsewhere/core/src/lib.rs:1202:1\n",
        "     |\n",
        "1202 | macro_rules! derive_it {\n",
        "     | ^^^^^^^^^^^^^^^^^^^^^^\n",
    ]);
    assert_eq!(
        n.normalize(&rendered, "tests/ui/a.rs"),
        cat(&[
            "error: MYLIB-E001: expected a struct with named fields\n",
            "       found a tuple struct\n",
            " --> tests/ui/a.rs:6:9\n",
            "  |\n",
            "6 |     derive_it!();\n",
            "  |     ^^^^^^^^^^^^\n",
            "note: in this expansion of `derive_it!`\n",
            " --> $CORE/src/lib.rs\n",
            "  |\n",
            "  | macro_rules! derive_it {\n",
            "  | ^^^^^^^^^^^^^^^^^^^^^^\n",
        ])
    );
}

#[test]
fn an_unrecognized_row_leaves_its_whole_diagnostic_alone() {
    // The safety net. A row this does not understand could be placed by the
    // gutter, and moving everything around it would misalign the block. Not
    // reclaiming the width is the recoverable outcome; a mangled snippet is
    // not.
    let rendered = cat(&[
        "error[E0308]: mismatched types\n",
        "    --> src/bin/f_a.rs:2:19\n",
        "     |\n",
        "   2 |     let _x: i64 = 1u32;\n",
        "  something rustc has not printed before\n",
        "     |             ^^^^\n",
    ]);
    assert_eq!(
        normalizer().normalize(&rendered, "tests/ui/a.rs"),
        cat(&[
            "error[E0308]: mismatched types\n",
            "    --> tests/ui/a.rs:2:19\n",
            "     |\n",
            "   2 |     let _x: i64 = 1u32;\n",
            "  something rustc has not printed before\n",
            "     |             ^^^^\n",
        ])
    );
}

#[test]
fn a_diagnostic_without_a_snippet_has_no_gutter_to_re_align() {
    assert_eq!(
        normalizer().normalize("error: aborting due to 1 previous error\n", "tests/ui/a.rs"),
        "error: aborting due to 1 previous error\n"
    );
}

#[test]
fn a_gutter_the_fixtures_own_numbers_need_is_left_alone() {
    // The fixture is what the golden is about, so its line numbers set the
    // width and nothing is reclaimed. This is also what guards the
    // sub-diagnostic rule: were that `note:` read as opening a block of its
    // own, its half would shrink to one column while the half above it
    // stayed at four.
    let n = with_deps(&[("/elsewhere/core", "core")]);
    let rendered = cat(&[
        "error[E0277]: the trait bound is not satisfied\n",
        "    --> src/bin/f_a.rs:1202:15\n",
        "     |\n",
        "1202 |     take(Widget);\n",
        "     |          ^^^^^^\n",
        "note: required by a bound in `take`\n",
        "    --> /elsewhere/core/src/lib.rs:8:16\n",
        "     |\n",
        "   8 | pub fn take<T: Sealed>(_t: T) {}\n",
        "     |                ^^^^^^\n",
    ]);
    assert_eq!(
        n.normalize(&rendered, "tests/ui/a.rs"),
        cat(&[
            "error[E0277]: the trait bound is not satisfied\n",
            "    --> tests/ui/a.rs:1202:15\n",
            "     |\n",
            "1202 |     take(Widget);\n",
            "     |          ^^^^^^\n",
            "note: required by a bound in `take`\n",
            "    --> $CORE/src/lib.rs\n",
            "     |\n",
            "     | pub fn take<T: Sealed>(_t: T) {}\n",
            "     |                ^^^^^^\n",
        ])
    );
}

#[test]
fn two_diagnostics_re_align_independently() {
    let n = with_deps(&[("/elsewhere/core", "core")]);
    let rendered = cat(&[
        "error[E0277]: first\n",
        "   --> /elsewhere/core/src/lib.rs:508:1\n",
        "    |\n",
        "508 | pub struct Event;\n",
        "    | ^^^^^^^^^^^^^^^^\n",
        "\n",
        "error[E0308]: second\n",
        " --> src/bin/f_a.rs:4:17\n",
        "  |\n",
        "4 |     let _x: u8 = \"s\";\n",
        "  |                  ^^^\n",
    ]);
    assert_eq!(
        n.normalize(&rendered, "tests/ui/a.rs"),
        cat(&[
            "error[E0277]: first\n",
            " --> $CORE/src/lib.rs\n",
            "  |\n",
            "  | pub struct Event;\n",
            "  | ^^^^^^^^^^^^^^^^\n",
            "\n",
            "error[E0308]: second\n",
            " --> tests/ui/a.rs:4:17\n",
            "  |\n",
            "4 |     let _x: u8 = \"s\";\n",
            "  |                  ^^^\n",
        ])
    );
}

#[test]
fn a_row_padded_unlike_rustc_cannot_have_its_digits_eaten() {
    // rustc right-aligns a line number with exactly one space after it, so
    // this shape does not come out of the compiler today. It is here because
    // the alternative failure is the worst one available: without the cap on
    // `allowed`, the cut reaches into the digits, and in a release build --
    // where the `debug_assert` is gone -- that silently rewrites the number
    // and is not even idempotent, so re-blessing eats another digit.
    let rendered = cat(&[
        "error[E0308]: mismatched types\n",
        "    --> src/bin/f_a.rs:2:1\n",
        "     |\n",
        "   2 |     x\n",
        "12345  | src\n",
        "     |\n",
    ]);
    let once = normalizer().normalize(&rendered, "tests/ui/a.rs");
    assert!(once.contains("12345"), "a line number lost digits: {once}");
    assert_eq!(
        once,
        normalizer().normalize(&once, "tests/ui/a.rs"),
        "normalizing twice must not differ from normalizing once"
    );
}

#[test]
fn a_free_standing_note_re_aligns_on_its_own() {
    // A post-monomorphization error arrives from cargo as three separate
    // rendered diagnostics, two of them at level `note`, each sized to its
    // own spans. Read as sub-diagnostics of the error they would keep the
    // dependency's width with every digit blanked, which is the leak this
    // exists to close.
    let n = with_deps(&[("/elsewhere/core", "core")]);
    let rendered = cat(&[
        "error[E0080]: evaluation panicked: N must be a power of two\n",
        "    --> /elsewhere/core/src/lib.rs:1219:13\n",
        "     |\n",
        "1219 |     const { assert!(N.is_power_of_two(), \"..\") };\n",
        "     |             ^^^^^^ evaluation of `split::<3>` failed here\n",
        "\n",
        "note: erroneous constant encountered\n",
        "    --> /elsewhere/core/src/lib.rs:1219:5\n",
        "     |\n",
        "1219 |     const { assert!(N.is_power_of_two(), \"..\") };\n",
        "     |     ^^^^^^^^^^^^^^^^^^^^^^^^^^^^^^^^^^^^^^^^^^\n",
        "\n",
        "note: the above error was encountered while instantiating `fn split::<3>`\n",
        " --> src/bin/f_a.rs:4:13\n",
        "  |\n",
        "4 | fn main() { split::<3>(); }\n",
        "  |             ^^^^^^^^^^^^\n",
    ]);
    assert_eq!(
        n.normalize(&rendered, "tests/ui/a.rs"),
        cat(&[
            "error[E0080]: evaluation panicked: N must be a power of two\n",
            " --> $CORE/src/lib.rs\n",
            "  |\n",
            "  |     const { assert!(N.is_power_of_two(), \"..\") };\n",
            "  |             ^^^^^^ evaluation of `split::<3>` failed here\n",
            "\n",
            "note: erroneous constant encountered\n",
            " --> $CORE/src/lib.rs\n",
            "  |\n",
            "  |     const { assert!(N.is_power_of_two(), \"..\") };\n",
            "  |     ^^^^^^^^^^^^^^^^^^^^^^^^^^^^^^^^^^^^^^^^^^\n",
            "\n",
            // Already as narrow as its own spans need.
            "note: the above error was encountered while instantiating `fn split::<3>`\n",
            " --> tests/ui/a.rs:4:13\n",
            "  |\n",
            "4 | fn main() { split::<3>(); }\n",
            "  |             ^^^^^^^^^^^^\n",
        ])
    );
}

#[test]
fn a_sibling_directory_sharing_a_name_prefix_is_left_alone() {
    // `/w` must not claim `/w-helper`. This is the shape a sibling checkout
    // takes, and a plain `str::replace` gets it wrong.
    let out = normalizer().normalize(" --> /w-helper/src/lib.rs:1:1\n", "tests/ui/a.rs");
    assert_eq!(out, " --> /w-helper/src/lib.rs\n");
}

#[test]
fn replace_dir_anchors_on_a_component_boundary() {
    assert_eq!(replace_dir("/w/a.rs:1", "/w", "$DIR"), "$DIR/a.rs:1");
    assert_eq!(replace_dir("/w-dep/a.rs", "/w", "$DIR"), "/w-dep/a.rs");
    assert_eq!(replace_dir("in /w", "/w", "$DIR"), "in $DIR");
    assert_eq!(replace_dir("`/w`", "/w", "$DIR"), "`$DIR`");
    assert_eq!(replace_dir("/wide/a.rs", "/w", "$DIR"), "/wide/a.rs");
    // Both occurrences, and neither of them the sibling.
    assert_eq!(
        replace_dir("/w/a.rs and /w-dep/b.rs and /w/c.rs", "/w", "$DIR"),
        "$DIR/a.rs and /w-dep/b.rs and $DIR/c.rs"
    );
}

#[test]
fn rewrites_a_rustup_toolchain_path_to_rust() {
    // Carries both the user's home directory and the host triple, so a
    // golden holding one is pinned to a single machine. Any trait bound
    // involving a std type produces this.
    let out = normalizer().normalize(
        "    --> /Users/u/.rustup/toolchains/stable-aarch64-apple-darwin/lib/rustlib/src/rust/library/alloc/src/vec/mod.rs:3938:1\n",
        "tests/ui/a.rs",
    );
    assert_eq!(out, "    --> $RUST/alloc/src/vec/mod.rs\n");
}

#[test]
fn rewrites_the_older_toolchain_source_layout_to_rust() {
    let out = normalizer().normalize(
        " --> /home/u/.rustup/toolchains/nightly/lib/rustlib/src/rust/src/libstd/net/ip.rs:83:1\n",
        "tests/ui/a.rs",
    );
    assert_eq!(out, " --> $RUST/libstd/net/ip.rs\n");
}

#[test]
fn rewrites_a_distributed_toolchain_commit_path_to_rust() {
    let out = normalizer().normalize(
        " --> /rustc/0123456789abcdef0123456789abcdef01234567/library/core/src/mod.rs:9:1\n",
        "tests/ui/a.rs",
    );
    assert_eq!(out, " --> $RUST/core/src/mod.rs\n");
}

#[test]
fn a_path_that_only_looks_like_a_commit_directory_is_left_alone() {
    let out = normalizer().normalize(" --> /rustc/short/library/a.rs:1:1\n", "f.rs");
    assert_eq!(out, " --> /rustc/short/library/a.rs\n");
}

#[test]
fn a_secondary_span_back_into_the_fixture_keeps_its_position() {
    // The bare relative form is how cargo prints files of the package under
    // compilation. Missing it here left the golden naming `src/main.rs`, a
    // file that exists in no user's repository, and stripped the one line
    // number the rule exists to keep.
    let rendered = cat(&[
        " ::: src/bin/f_a.rs:2:5\n",
        "  |\n",
        "2 |     core::bad!(\"s\");\n",
    ]);
    assert_eq!(
        normalizer().normalize(&rendered, "tests/ui/a.rs"),
        cat(&[
            " ::: tests/ui/a.rs:2:5\n",
            "  |\n",
            "2 |     core::bad!(\"s\");\n",
        ])
    );
}

#[test]
fn a_sibling_whose_name_extends_this_one_past_a_space_is_left_alone() {
    // Spaces are ordinary in directory names, and `My Project 2` is not a
    // path inside `My Project`.
    let n = with_deps(&[("/x/My Project", "proj")]);
    let out = n.normalize(" --> /x/My Project 2/src/lib.rs:1:1\n", "tests/ui/a.rs");
    assert_eq!(out, " --> /x/My Project 2/src/lib.rs\n");
    // The dependency itself still normalizes.
    let out = n.normalize(" --> /x/My Project/src/lib.rs:1:1\n", "tests/ui/a.rs");
    assert_eq!(out, " --> $PROJ/src/lib.rs\n");
}

#[test]
fn a_match_inside_a_longer_path_is_left_alone() {
    // `/w` names nothing in `/opt/w/a.rs`.
    let out = normalizer().normalize(" --> /opt/w/a.rs:1:1\n", "tests/ui/a.rs");
    assert_eq!(out, " --> /opt/w/a.rs\n");
}

#[test]
fn replace_dir_anchors_on_both_sides() {
    assert_eq!(replace_dir("/opt/w/a.rs", "/w", "$DIR"), "/opt/w/a.rs");
    assert_eq!(replace_dir("/w/w/a.rs", "/w", "$DIR"), "$DIR/w/a.rs");
    assert_eq!(replace_dir("/w x/a.rs", "/w", "$DIR"), "/w x/a.rs");
    // An empty needle would match forever without consuming.
    assert_eq!(replace_dir("/w/a.rs", "", "$DIR"), "/w/a.rs");
}

#[test]
fn a_span_target_that_only_shares_a_prefix_with_the_fixture_is_foreign() {
    // `tests/ui/a.rs` must not claim `tests/ui/a.rs.bak`.
    let out = normalizer().normalize(" --> /w/tests/ui/a.rs.bak:1:1\n", "tests/ui/a.rs");
    assert_eq!(out, " --> $DIR/tests/ui/a.rs.bak\n");
}

/// One entry per line, indented as rustc indents them under a `= help:`.
fn implementor_list(entries: &[&str]) -> String {
    let mut text = String::from(
        "error[E0277]: the trait bound `T: Pod` is not satisfied\n  \
             --> tests/ui/a.rs:22:5\n   |\n22 |     f::<T>();\n   |     ^ nope\n   |\n   \
             = help: the following other types implement trait `Pod`:\n",
    );
    for entry in entries {
        text.push_str("             ");
        text.push_str(entry);
        text.push('\n');
    }
    text.push_str("note: required by a bound in `f`\n");
    text
}

fn entries(count: usize) -> Vec<String> {
    (0..count).map(|i| format!("Type{i}")).collect()
}

fn rendered(entries: &[String]) -> String {
    let borrowed: Vec<&str> = entries.iter().map(String::as_str).collect();
    normalizer().normalize(&implementor_list(&borrowed), "tests/ui/a.rs")
}

/// The list's own lines, entries and summary alike: the summary sits two
/// columns in from an entry, so the shallowest of them is the bound.
fn entry_lines(text: &str) -> Vec<String> {
    text.lines()
        .filter(|line| line.starts_with(&" ".repeat(ENTRY_COLUMN - 2)))
        .map(str::trim_start)
        .map(str::to_string)
        .collect()
}

fn normalized_list(count: usize) -> Vec<String> {
    entry_lines(&rendered(&entries(count)))
}

#[test]
fn hides_the_count_of_unlisted_implementors() {
    let out = normalizer().normalize("          and 568 others\n", "tests/ui/a.rs");
    assert_eq!(out, "          and $N others\n");
}

#[test]
fn leaves_an_others_line_without_a_count_alone() {
    // Neither is a count rustc would print, and rewriting either would put a
    // `$N` in the golden standing for a number that was never there.
    let out = normalizer().normalize("and others\nand 12x others\n", "tests/ui/a.rs");
    assert_eq!(out, "and others\nand 12x others\n");
}

#[test]
fn keeps_an_implementor_list_rustc_did_not_elide() {
    // Nine is the longest list that stays whole: summarizing here would
    // claim a tail the diagnostic does not have.
    assert_eq!(normalized_list(9), entries(9));
}

#[test]
fn summarizes_an_implementor_list_rustc_printed_in_full() {
    // Ten entries, so the ninth becomes the summary and the tenth goes.
    let mut expected = entries(8);
    expected.push(SUMMARY.to_string());
    assert_eq!(normalized_list(10), expected);
    // And a longer one lands in exactly the same place, which is the point:
    // the golden stops recording where rustc's own threshold falls.
    assert_eq!(normalized_list(40), expected);
}

#[test]
fn summarizes_at_the_column_rustc_uses() {
    // Two columns in from its entries, so it reads as prose about the list.
    let out = rendered(&entries(10));
    assert!(out.contains("\n           and $N others\n"), "{out}");
}

#[test]
fn keeps_a_summary_rustc_wrote_itself() {
    // rustc elided the tail on its own. The list is already the shape this
    // rule produces, and its summary must not be counted as a tenth entry
    // and dropped.
    let mut listed = entries(8);
    listed.push("and 568 others".to_string());
    let mut expected = entries(8);
    expected.push(SUMMARY.to_string());
    assert_eq!(entry_lines(&rendered(&listed)), expected);
}

#[test]
fn summarizes_a_list_under_the_narrowest_gutter_rustc_prints() {
    // One-digit line numbers put `= help:` at column two and its entries at
    // twelve, the shallowest either can be. A list indented that far is
    // still a list, and `ENTRY_COLUMN` has to reach it.
    let mut text = String::from("  = help: the following types implement trait `Pod`:\n");
    for i in 0..10 {
        text.push_str(&format!("            Type{i}\n"));
    }
    let out = normalizer().normalize(&text, "tests/ui/a.rs");
    assert!(
        out.ends_with("            Type7\n          and $N others\n"),
        "{out}"
    );
}

#[test]
fn leaves_a_list_indented_short_of_an_entry_alone() {
    // One column shallower than rustc can put an entry, so these are not
    // entries and the list they would have formed is never open.
    let mut text = String::from("  = help: the following types implement trait `Pod`:\n");
    for i in 0..10 {
        text.push_str(&format!("{}Type{i}\n", " ".repeat(ENTRY_COLUMN - 1)));
    }
    let out = normalizer().normalize(&text, "tests/ui/a.rs");
    assert_eq!(out, text);
}

#[test]
fn does_not_summarize_lines_outside_an_implementor_list() {
    // The heading is what opens a list. Ten indented lines under anything
    // else are ten lines rustc meant, and truncating them would delete part
    // of the assertion.
    let mut text = String::from("   = note: the following are not implementors:\n");
    for i in 0..10 {
        text.push_str(&format!("             Type{i}\n"));
    }
    let out = normalizer().normalize(&text, "tests/ui/a.rs");
    assert_eq!(out, text);
}

//! What holds of the library as a whole, on concrete values.

use nocompile::cases::{golden_path, relative_to, Check, Entry, TestCases};
use nocompile::compare::filter;
use nocompile::compile::{ingest, Build};
use nocompile::diff::{diff, first_difference, Edit};
use nocompile::environment::Environment;
use nocompile::gutter::realign_gutters;
use nocompile::json::{parse, Value};
use nocompile::lists::{hide_other_count, truncate_implementor_lists};
use nocompile::normalize::{hide_trailing_numbers, Normalizer};
use nocompile::path::{components_of, join_path, lexical_join, rendered, Component};
use nocompile::rewrite::replace_dir;
use nocompile::run::{Reply, Request};
use nocompile::scratch::{
    bin_name, bin_names, manifest, sanitize, toml_string, Dependency, Layout,
};
use nocompile::{CaseOutcome, Failure, Kind, Mode, Outcome};

fn chars(text: &str) -> Vec<char> {
    text.chars().collect()
}

fn text(chars: &[char]) -> String {
    chars.iter().collect()
}

fn lines(text: &str) -> Vec<Vec<char>> {
    text.lines().map(chars).collect()
}

fn unlines(lines: &[Vec<char>]) -> String {
    lines.iter().map(|line| text(line) + "\n").collect()
}

fn env() -> Environment {
    Environment {
        overwrite: None,
        cargo_home: None,
        home: None,
        target_dir: None,
        current_dir: None,
        ancestors: Vec::new(),
        variables: Vec::new(),
    }
}

fn normalizer() -> Normalizer {
    Normalizer::new(
        "/host/target/nocompile/host",
        "/host/target/nocompile/host/project/src/bin/f_a.rs",
        "f_a",
        "/host",
        &[Dependency {
            name: "core".to_string(),
            path: "/elsewhere/core".to_string(),
        }],
        None,
    )
}

// -- paths ------------------------------------------------------------------

#[test]
fn folding_twice_is_folding_once() {
    let once = lexical_join("/a/b", "../c/./d/..");
    assert_eq!(once, "/a/c");
    assert_eq!(lexical_join("", &once), once);
    assert_eq!(lexical_join("/elsewhere", &once), once);
    let kept = lexical_join("", "../../x");
    assert_eq!(kept, "../../x");
    assert_eq!(lexical_join("", &kept), kept);
}

#[test]
fn components_read_back_from_their_text() {
    for path in ["/a/b", "a/../b", "./a", ".", "/", "", "../..", "a"] {
        let list = components_of(&chars(path));
        let again = components_of(&rendered(&list));
        assert_eq!(format!("{list:?}"), format!("{again:?}"), "{path}");
    }
    let list = components_of(&chars("//a//./b/"));
    assert_eq!(text(&rendered(&list)), "/a/b");
    assert!(matches!(list[0], Component::RootDir));
}

#[test]
fn a_joined_name_is_the_last_component() {
    for base in ["/a", "/a/", "a/b", "", "."] {
        let joined = join_path(base, "name");
        let before = components_of(&chars(base)).len();
        let list = components_of(&chars(&joined));
        assert_eq!(list.len(), before + 1, "{joined}");
        assert!(matches!(&list[before], Component::Normal(name) if text(name) == "name"));
    }
}

#[test]
fn a_relative_path_leads_back_to_its_base() {
    let relative = relative_to("/a/b", "/a/b/c/d.rs");
    assert_eq!(relative, "c/d.rs");
    assert_eq!(join_path("/a/b", &relative), "/a/b/c/d.rs");
    assert_eq!(relative_to("/a/b", "/a/bc/d.rs"), "/a/bc/d.rs");
}

#[test]
fn only_the_extension_of_a_golden_differs() {
    assert_eq!(golden_path("/a/b.c/d.e.rs"), "/a/b.c/d.e.stderr");
    assert_eq!(golden_path("/a/d.rs/"), "/a/d.stderr");
    assert_eq!(golden_path(".hidden"), ".hidden.stderr");
    assert_eq!(golden_path("plain"), "plain.stderr");
    assert_eq!(golden_path(".."), "..");
}

// -- rewriting and normalizing ----------------------------------------------

#[test]
fn a_whole_directory_is_replaced_and_part_of_a_name_is_not() {
    assert_eq!(replace_dir("at /a/b/c.rs", "/a/b", "$X"), "at $X/c.rs");
    assert_eq!(replace_dir("at /a/bc/d.rs", "/a/b", "$X"), "at /a/bc/d.rs");
    assert_eq!(replace_dir("at /z/a/b/d", "/a/b", "$X"), "at /z/a/b/d");
}

#[test]
fn a_letter_of_any_script_continues_a_name() {
    assert_eq!(replace_dir("at /a/bé/c", "/a/b", "$X"), "at /a/bé/c");
    assert_eq!(replace_dir("at é/a/b/c", "/a/b", "$X"), "at é/a/b/c");
    assert_eq!(replace_dir("at ٣/a/b/c", "/a/b", "$X"), "at ٣/a/b/c");
    assert_eq!(replace_dir("at →/a/b/c", "/a/b", "$X"), "at →$X/c");
}

#[test]
fn where_another_file_is_pointed_at_makes_no_difference() {
    assert_eq!(
        text(&hide_trailing_numbers(chars(" --> $X/lib.rs:12:3"))),
        " --> $X/lib.rs"
    );
    let at = |line: usize| {
        let n = line.to_string();
        let gutter = " ".repeat(n.len());
        format!(
            "error: e\n{gutter}--> src/bin/f_a.rs:2:1\n{gutter} |\n{:>width$} | x\n{gutter} |\n\
             note: here\n{gutter}--> /elsewhere/core/src/lib.rs:{line}:5\n{gutter} |\n{n} | y\n",
            2,
            width = n.len()
        )
    };
    let short = normalizer().normalize(&at(9), "ui/a.rs");
    assert_eq!(short, normalizer().normalize(&at(1009), "ui/a.rs"));
    assert_eq!(
        short,
        "error: e\n --> ui/a.rs:2:1\n  |\n2 | x\n  |\nnote: here\n --> $CORE/src/lib.rs\n  |\n  | y\n"
    );
}

#[test]
fn where_another_file_puts_its_code_makes_no_difference_among_other_diagnostics() {
    let at = |line: usize| {
        let n = line.to_string();
        let gutter = " ".repeat(n.len());
        let rows = [
            "warning: w".to_string(),
            " --> src/bin/f_a.rs:1:1".to_string(),
            "  |".to_string(),
            "1 | z".to_string(),
            String::new(),
            "error: e".to_string(),
            format!("{gutter}--> src/bin/f_a.rs:2:1"),
            format!("{gutter} |"),
            format!("{:>width$} | x", 2, width = n.len()),
            format!("{gutter} |  "),
            format!("{gutter} = note: n"),
            "note: here".to_string(),
            format!("{gutter}::: /elsewhere/core/src/lib.rs:{line}:5"),
            format!("{gutter} |"),
            format!("{} | / y", line - 1),
            format!("...{gutter}|"),
            format!("{line} | |_z"),
            "...".to_string(),
            String::new(),
            "error: f".to_string(),
        ];
        rows.join("\n")
    };
    let short = normalizer().normalize(&at(9), "ui/a.rs");
    assert_eq!(short, normalizer().normalize(&at(1009), "ui/a.rs"));
    assert_eq!(short, normalizer().normalize(&at(4294967295), "ui/a.rs"));
    assert_eq!(
        short,
        "warning: w\n --> ui/a.rs:1:1\n  |\n1 | z\n\nerror: e\n --> ui/a.rs:2:1\n  |\n\
         2 | x\n  |\n  = note: n\nnote: here\n ::: $CORE/src/lib.rs\n  |\n  | / y\n\
         ... |\n  | |_z\n...\n\nerror: f\n"
    );
}

#[test]
fn where_another_file_puts_its_code_makes_no_difference_to_a_note_of_its_own() {
    let deps = [Dependency {
        name: "core".to_string(),
        path: "/else:where:/core".to_string(),
    }];
    let n = Normalizer::new("/h/t", "/h/t/src/bin/f_a.rs", "f_a", "/h", &deps, None);
    let at = |line: usize| {
        let number = line.to_string();
        let gutter = " ".repeat(number.len());
        let mut rows = vec![
            "note: n".to_string(),
            "      and more of it".to_string(),
            format!("{gutter}--> /else:where:/core/src/lib.rs:{line}:5"),
            format!("{gutter} |"),
            format!("{line} | y"),
            format!("{gutter} |"),
            format!("{gutter} = note: first"),
            format!("{gutter}         second"),
            format!("{gutter} = help: the following types implement trait `T`:"),
        ];
        for i in 0..10 {
            rows.push(format!("{gutter}           A{i}"));
        }
        rows.join("\n")
    };
    let short = n.normalize(&at(9), "ui/a.rs");
    assert_eq!(short, n.normalize(&at(1009), "ui/a.rs"));
    assert_eq!(short, n.normalize(&at(4294967295), "ui/a.rs"));
    let mut expected = "note: n\n      and more of it\n --> $CORE/src/lib.rs\n  |\n  | y\n  |\n\
                        \x20 = note: first\n          second\n\
                        \x20 = help: the following types implement trait `T`:\n"
        .to_string();
    for i in 0..8 {
        expected.push_str(&format!("            A{i}\n"));
    }
    expected.push_str("          and $N others\n");
    assert_eq!(short, expected);
}

#[test]
fn where_things_are_makes_no_difference() {
    let on = |host: &str, dep: &str, home: &str, toolchain: &str, commit: &str| {
        let root = format!("{host}/target/nocompile/host");
        let scratch = format!("{root}/project/src/bin/f_a.rs");
        let deps = [Dependency {
            name: "my-dep".to_string(),
            path: dep.to_string(),
        }];
        let n = Normalizer::new(&root, &scratch, "f_a", host, &deps, Some(home.to_string()));
        let text = [
            format!("at {scratch}:1:2"),
            format!("in {root}/target/x"),
            "in src/bin/f_a.rs of `f_a`".to_string(),
            format!("in `{host}/src/lib.rs`"),
            format!("in {dep}/src/lib.rs"),
            format!("in {home}/registry/src/index-0a1b/serde-1.0.0/src/lib.rs"),
            format!("in {home}/bin"),
            format!("in `{toolchain}/lib/rustlib/src/rust/library/core/src/a.rs`"),
            format!("in /rustc/{commit}/library/std/src/b.rs"),
            "in no place at all".to_string(),
        ];
        n.normalize(&text.join("\n"), "ui/a.rs")
    };
    let here = on("/h", "/x/dep", "/c", "/t/stable-x", &"0".repeat(40));
    let there = on("/home/me/w", "/d", "/home/me/.cargo", "/opt/rust", &"f".repeat(40));
    assert_eq!(here, there);
    assert_eq!(
        here,
        "at ui/a.rs:1:2\nin $SCRATCH/target/x\nin ui/a.rs of `$CRATE`\nin `$DIR/src/lib.rs`\n\
         in $MY_DEP/src/lib.rs\nin $CARGO_REGISTRY/serde-1.0.0/src/lib.rs\nin $CARGO_HOME/bin\n\
         in `$RUST/core/src/a.rs`\nin $RUST/std/src/b.rs\nin no place at all\n"
    );
}

#[test]
fn line_ends_and_trailing_space_make_no_difference() {
    let plain = normalizer().normalize("error: a\n  b\n\n", "ui/a.rs");
    assert_eq!(plain, "error: a\n  b\n");
    assert_eq!(
        plain,
        normalizer().normalize("error: a  \r\n  b\t\r\n\r\n", "ui/a.rs")
    );
}

#[test]
fn normalized_text_ends_in_one_line_feed() {
    assert_eq!(normalizer().normalize("a\n\n\n", "ui/a.rs"), "a\n");
    assert_eq!(normalizer().normalize("a", "ui/a.rs"), "a\n");
    assert_eq!(normalizer().normalize("\n\n", "ui/a.rs"), "");
}

#[test]
fn the_longest_dependency_is_tried_first() {
    let deps = [("/x", "outer"), ("/x/inner", "inner")].map(|(path, name)| Dependency {
        name: name.to_string(),
        path: path.to_string(),
    });
    let n = Normalizer::new("/s", "/s/f_a.rs", "f_a", "/host", &deps, None);
    assert_eq!(n.normalize("at /x/inner/a.rs", "ui/a.rs"), "at $INNER/a.rs\n");
    assert_eq!(n.normalize("at /x/a.rs", "ui/a.rs"), "at $OUTER/a.rs\n");
}

#[test]
fn realigning_takes_only_spaces_and_only_once() {
    let wide = lines("error: e\n    --> a.rs:2:1\n     |\n   2 | x\n     | ^\n");
    let narrow = realign_gutters(&wide);
    assert_eq!(
        unlines(&narrow),
        "error: e\n --> a.rs:2:1\n  |\n2 | x\n  | ^\n"
    );
    assert_eq!(realign_gutters(&narrow), narrow);
    for (before, after) in wide.iter().zip(&narrow) {
        let spare: String = text(before).replace(' ', "");
        assert_eq!(spare, text(after).replace(' ', ""));
    }
}

#[test]
fn how_many_implementors_were_left_out_makes_no_difference() {
    let few = text(&hide_other_count(&chars("            and 8 others")));
    let many = text(&hide_other_count(&chars("            and 1234 others")));
    assert_eq!(few, "            and $N others");
    assert_eq!(few, many);
}

#[test]
fn a_full_list_and_an_elided_one_read_the_same() {
    let heading = "   = help: the following other types implement trait `T`:";
    let entries = |count: usize| -> Vec<String> {
        (0..count).map(|i| format!("             A{i}")).collect()
    };
    let mut full = vec![heading.to_string()];
    full.extend(entries(12));
    let mut elided = vec![heading.to_string()];
    elided.extend(entries(8));
    elided.push("           and $N others".to_string());
    let list = |all: &[String]| -> Vec<Vec<char>> { all.iter().map(|l| chars(l)).collect() };
    let a = truncate_implementor_lists(&list(&full));
    let b = truncate_implementor_lists(&list(&elided));
    assert_eq!(a.len(), 10);
    assert_eq!(a[..9], b[..9]);
}

// -- comparing --------------------------------------------------------------

const RENDERED: &str = "error[E0061]: two arguments\n --> ui/a.rs:5:5\n  |\n5 |     f(1);\n  |     \
     ^ missing\n";

#[test]
fn a_golden_of_either_mode_passes_in_brief() {
    let exact = filter(RENDERED, Mode::Exact);
    let brief = filter(RENDERED, Mode::Brief);
    assert_eq!(exact, RENDERED);
    assert_eq!(brief, "error[E0061]: two arguments\n--> ui/a.rs:5:5\n");
    assert_eq!(filter(&exact, Mode::Brief), brief);
    assert_eq!(filter(&brief, Mode::Brief), brief);
}

#[test]
fn a_diff_restores_both_sides_and_keeps_the_most() {
    let old = ["a", "b", "c", "d"];
    let new = ["a", "x", "c", "d", "y"];
    let edits = diff(&old, &new);
    let mut left = Vec::new();
    let mut right = Vec::new();
    let mut kept: usize = 0;
    for edit in &edits {
        match edit {
            Edit::Same(line) => {
                left.push(*line);
                right.push(*line);
                kept += 1;
            }
            Edit::Delete(line) => left.push(*line),
            Edit::Insert(line) => right.push(*line),
        }
    }
    assert_eq!(left, old);
    assert_eq!(right, new);
    assert_eq!(kept, 3);
    assert_eq!(first_difference("a\nb\nc\n", "a\nx\nc\n"), Some(2));
}

// -- the scratch project ----------------------------------------------------

#[test]
fn a_bin_name_is_the_path_and_a_hash_of_it() {
    assert_eq!(bin_name(""), "f__cbf29ce484222325");
    assert_eq!(bin_name("a"), "f_a_af63dc4c8601ec8c");
    assert_eq!(bin_name("tests/ui/a.rs"), "f_tests_ui_a_184bf14aaf0a4eee");
    assert_eq!(bin_name("ui/Ünïcode-1.rs"), "f_ui__n_code_1_f3f4c813b281c273");
    for name in [bin_name("1/2.rs"), bin_names(&["É".to_string()])[0].clone()] {
        assert!(name.starts_with('f'));
        assert!(name
            .chars()
            .all(|c| c.is_ascii_lowercase() || c.is_ascii_digit() || c == '_'));
    }
}

#[test]
fn paths_that_sanitize_alike_get_names_of_their_own() {
    assert_ne!(bin_name("ui/a-b.rs"), bin_name("ui/a_b.rs"));
    let paths = ["a-b", "a_b", "a.b", "a_b_2"].map(str::to_string);
    assert_eq!(
        bin_names(&paths),
        ["f_a_b", "f_a_b_2", "f_a_b_3", "f_a_b_2_2"]
    );
}

#[test]
fn a_package_name_makes_one_component() {
    assert_eq!(sanitize("a/b ../é"), "a_b_.._é".replace(['.', 'é'], "_"));
    assert_eq!(sanitize(".."), "__");
    assert_eq!(sanitize("my-crate_2"), "my-crate_2");
}

#[test]
fn the_scratch_project_has_a_target_directory_of_its_own() {
    let layout = Layout::new("/host", "my/crate", &env());
    assert_eq!(layout.root, "/host/target/nocompile/my_crate");
    assert_eq!(layout.project, "/host/target/nocompile/my_crate/project");
    assert_eq!(layout.target, "/host/target/nocompile/my_crate/target");
    assert_eq!(layout.manifest(), format!("{}/Cargo.toml", layout.project));
    assert_eq!(
        layout.bin_path("f_a"),
        format!("{}/src/bin/f_a.rs", layout.project)
    );
}

#[test]
fn the_manifest_is_written_in_full() {
    let deps = [Dependency {
        name: "my.crate".to_string(),
        path: "/a\"b".to_string(),
    }];
    assert_eq!(
        manifest("2021", &deps, &["[features]\nx = []\n\n".to_string()], &["f_a".to_string()]),
        "# Generated by nocompile. Edits are overwritten on every run.\n[workspace]\n\n[package]\n\
         name = \"nocompile-scratch\"\nversion = \"0.0.0\"\nedition = \"2021\"\npublish = false\n\
         autobins = false\n\n[dependencies]\n\"my.crate\" = { path = \"/a\\\"b\" }\n\n\n[[bin]]\n\
         name = \"f_a\"\npath = \"src/bin/f_a.rs\"\n\n[features]\nx = []\n"
    );
}

#[test]
fn a_quoted_text_escapes_what_would_end_it() {
    assert_eq!(toml_string("a\"b\\c"), "\"a\\\"b\\\\c\"");
    assert_eq!(toml_string("\n\r\t"), "\"\\n\\r\\t\"");
    assert_eq!(toml_string("\u{1}\u{1f}\u{7f}é"), "\"\\u0001\\u001F\u{7f}é\"");
    let value = "every \"kind\" \\ of\n\u{b}thing é 𝄞";
    let read = parse(&toml_string(value)).expect("a JSON string");
    assert_eq!(read.as_str(), Some(value));
}

// -- evidence ---------------------------------------------------------------

const OURS: &str = "/scratch/Cargo.toml";

fn said(manifest: &str, target: &str, level: &str, rendered: &str) -> String {
    format!(
        "{{\"reason\":\"compiler-message\",\"manifest_path\":{},\"target\":{{\"name\":{}}},\
         \"message\":{{\"level\":{},\"rendered\":{}}}}}\n",
        toml_string(manifest),
        toml_string(target),
        toml_string(level),
        toml_string(rendered)
    )
}

fn made(manifest: &str, target: &str) -> String {
    format!(
        "{{\"reason\":\"compiler-artifact\",\"manifest_path\":{},\"target\":{{\"name\":{}}}}}\n",
        toml_string(manifest),
        toml_string(target)
    )
}

fn heard(stdout: &str) -> Build {
    let mut build = Build::new("cargo said\n".to_string());
    ingest(&mut build, stdout, OURS).expect("well-formed messages");
    build
}

#[test]
fn a_message_reaches_its_own_target_only_and_in_order() {
    let build = heard(&[
        said(OURS, "a", "error", "one\n"),
        said(OURS, "b", "error", "two\n"),
        said(OURS, "a", "warning", "three\n"),
        said("/other/Cargo.toml", "a", "error", "four\n"),
        made("/other/Cargo.toml", "a"),
        made(OURS, "c"),
    ]
    .concat());
    assert_eq!(build.diagnostics("a"), "one\nthree\n");
    assert_eq!(build.diagnostics("b"), "two\n");
    assert!(!build.compiled("a") && !build.compiled("b") && build.compiled("c"));
}

#[test]
fn other_manifests_are_each_named_once_and_in_order() {
    let build = heard(&[
        made("/z/Cargo.toml", "z"),
        made("/a/Cargo.toml", "a"),
        made("/z/Cargo.toml", "z"),
    ]
    .concat());
    assert_eq!(build.suspects(), ["/a/Cargo.toml", "/z/Cargo.toml"]);
    assert_eq!(build.manifest_mismatch(OURS, &vec![false, false]), None);
    assert_eq!(
        build.manifest_mismatch(OURS, &vec![false, true]),
        Some((OURS.to_string(), "/z/Cargo.toml".to_string()))
    );
}

#[test]
fn what_is_written_as_json_is_read_back() {
    let Ok(Value::Array(list)) = parse("[null, true, -1.5e3, \"a\\u00e9\", {\"k\": []}]") else {
        panic!("an array");
    };
    assert!(matches!(list[0], Value::Null));
    assert!(matches!(list[1], Value::Bool(true)));
    assert!(matches!(&list[2], Value::Number(text) if text == "-1.5e3"));
    assert_eq!(list[3].as_str(), Some("aé"));
    assert!(matches!(list[4].get("k"), Some(Value::Array(inner)) if inner.is_empty()));
}

// -- cases ------------------------------------------------------------------

fn listing(names: &[&str]) -> Vec<Result<Entry, String>> {
    names
        .iter()
        .map(|name| {
            Ok(Entry {
                path: format!("/host/ui/{name}"),
                is_file: true,
            })
        })
        .collect()
}

#[test]
fn the_order_a_directory_is_read_in_makes_no_difference() {
    let paths = |names: &[&str]| -> Vec<String> {
        let mut t = TestCases::new("/host", "host");
        t.compile_fail_dir("ui", Ok(listing(names)));
        t.cases.iter().map(|case| case.relative.clone()).collect()
    };
    let sorted = ["ui/B.rs", "ui/a.rs", "ui/ab.rs", "ui/b.rs"];
    assert_eq!(paths(&["b.rs", "ab.rs", "B.rs", "a.rs"]), sorted);
    assert_eq!(paths(&["a.rs", "B.rs", "b.rs", "ab.rs"]), sorted);
}

/// A suite of one fixture that must not compile.
fn suite() -> TestCases {
    let mut t = TestCases::new("/host", "host");
    t.compile_fail("ui/a.rs");
    t
}

fn bin() -> String {
    bin_name("ui/a.rs")
}

fn manifest_path() -> String {
    suite().layout(&env()).manifest()
}

fn built(stdout: &str) -> Build {
    let mut build = Build::new("cargo said\n".to_string());
    ingest(&mut build, stdout, &manifest_path()).expect("well-formed messages");
    build
}

#[test]
fn a_fixture_is_judged_by_its_own_evidence_alone() {
    let t = suite();
    let ours = said(&manifest_path(), &bin(), "error", "error: e\n");
    let others = said(&manifest_path(), "f_b", "error", "error: x\n") + &made(&manifest_path(), "f_c");
    let alone = t.check_case(&env(), &t.cases[0], &built(&ours));
    let among = t.check_case(&env(), &t.cases[0], &built(&(others + &ours)));
    assert!(matches!(&alone, Check::Compare(text) if text == "error: e\n"));
    assert!(matches!(&among, Check::Compare(text) if text == "error: e\n"));
}

#[test]
fn a_fixture_that_compiled_is_a_failure_even_in_a_blessing_run() {
    let mut t = suite();
    t.overwrite(true);
    let stdout = said(&manifest_path(), &bin(), "warning", "warning: w\n")
        + &made(&manifest_path(), &bin());
    let check = t.check_case(&env(), &t.cases[0], &built(&stdout));
    assert!(matches!(check, Check::Settled(Err(Failure::Compiled))));
}

#[test]
fn a_fixture_with_nothing_to_say_is_never_blessed() {
    let mut t = suite();
    t.overwrite(true);
    let check = t.check_case(&env(), &t.cases[0], &built(""));
    assert!(matches!(
        check,
        Check::Settled(Err(Failure::NoDiagnostics { stderr })) if stderr == "cargo said\n"
    ));
    // In `Brief` a rendering can come to nothing, and then it is the evidence.
    t.mode(Mode::Brief);
    let stdout = said(&manifest_path(), &bin(), "error", "  | no heading\n");
    let check = t.check_case(&env(), &t.cases[0], &built(&stdout));
    assert!(matches!(
        check,
        Check::Settled(Err(Failure::NoDiagnostics { stderr })) if stderr == "  | no heading\n"
    ));
}

#[test]
fn a_blessed_golden_passes_the_fixture_it_was_written_for() {
    let stdout = said(&manifest_path(), &bin(), "error", RENDERED);
    for (written, mode) in [
        (Mode::Exact, Mode::Exact),
        (Mode::Exact, Mode::Brief),
        (Mode::Brief, Mode::Brief),
    ] {
        let mut t = suite();
        t.overwrite(true).mode(written);
        let Check::Bless(golden) = t.check_case(&env(), &t.cases[0], &built(&stdout)) else {
            panic!("a golden to write");
        };
        t.overwrite(false).mode(mode);
        let Check::Compare(actual) = t.check_case(&env(), &t.cases[0], &built(&stdout)) else {
            panic!("a golden to read");
        };
        assert!(t.compare_golden(&t.cases[0], Ok(Some(golden)), actual).is_ok());
    }
}

#[test]
fn only_an_equal_golden_passes() {
    let t = suite();
    let case = &t.cases[0];
    let with = |golden| t.compare_golden(case, golden, "error: e\n".to_string());
    assert!(with(Ok(Some("error: e\n".to_string()))).is_ok());
    assert!(matches!(
        with(Ok(None)),
        Err(Failure::MissingGolden { golden }) if golden == "ui/a.stderr"
    ));
    assert!(matches!(
        with(Ok(Some("error: x\n".to_string()))),
        Err(Failure::Mismatch { golden, expected, actual, mode: Mode::Exact })
            if golden == "ui/a.stderr" && expected == "error: x\n" && actual == "error: e\n"
    ));
    assert!(matches!(
        with(Err("denied".to_string())),
        Err(Failure::Io { context, message })
            if context == "could not read the golden ui/a.stderr" && message == "denied"
    ));
}

// -- runs -------------------------------------------------------------------

#[test]
fn a_run_takes_the_lock_first_and_comes_to_an_end() {
    let t = suite();
    let world = env();
    let mut run = t.run(&world);
    assert!(matches!(
        run.request(),
        Request::Lock { root } if root == "/host/target/nocompile/host"
    ));
    let mut asked: usize = 0;
    loop {
        let reply = match run.request() {
            Request::Lock { .. } | Request::CreateDir { .. } | Request::Write { .. } => {
                Reply::Done(Ok(()))
            }
            Request::Read { path } => {
                assert_eq!(path, "/host/ui/a.rs");
                Reply::Text(Ok("fn main() { 1 }\n".to_string()))
            }
            Request::Build { directory, .. } => {
                assert_eq!(directory, "/host/target/nocompile/host/project");
                let stdout = said(&manifest_path(), &bin(), "error", "error: e\n")
                    + "{\"reason\":\"build-finished\"}\n";
                Reply::Built(Ok((stdout, String::new())))
            }
            Request::SameFile { others, .. } => Reply::Same(vec![false; others.len()]),
            Request::ReadGolden { path } => {
                assert_eq!(path, "/host/ui/a.stderr");
                Reply::Golden(Ok(Some("error: e\n".to_string())))
            }
            Request::WriteGolden { .. } => panic!("no golden was asked for"),
            Request::Nothing => break,
        };
        run = run.advance(reply);
        asked += 1;
    }
    assert_eq!(asked, 7);
    let outcome = run.outcome().expect("a finished run");
    assert!(outcome.is_success());
    assert_eq!(outcome.report(), "nocompile: 1 case(s) passed");
    assert_eq!(outcome.complaint(), None);
}

#[test]
fn a_source_is_staged_as_it_was_read() {
    let t = suite();
    let world = env();
    let run = t
        .run(&world)
        .advance(Reply::Done(Ok(())))
        .advance(Reply::Done(Ok(())))
        .advance(Reply::Text(Ok("\r\n  odd é\t".to_string())));
    assert!(matches!(
        run.request(),
        Request::Write { path, contents }
            if path.ends_with(&format!("/project/src/bin/{}.rs", bin())) && contents == "\r\n  odd é\t"
    ));
}

#[test]
fn an_answer_to_something_else_changes_nothing() {
    let t = suite();
    let world = env();
    let run = t.run(&world).advance(Reply::Golden(Ok(None)));
    assert!(matches!(run.request(), Request::Lock { .. }));
    assert!(run.outcome().is_none());
}

#[test]
fn a_suite_without_fixtures_never_succeeds() {
    let t = TestCases::new("/host", "host");
    let world = env();
    let outcome = t.run(&world).outcome().expect("finished at once");
    assert!(!outcome.is_success());
    assert!(matches!(outcome.setup_failures(), [Failure::NothingRegistered]));
}

// -- reports ----------------------------------------------------------------

#[test]
fn the_report_names_everything_that_failed() {
    let outcome = Outcome::new(
        vec![Failure::NothingRegistered],
        vec![
            CaseOutcome::new("ui/a.rs".to_string(), Kind::CompileFail, Err(Failure::Compiled)),
            CaseOutcome::new("ui/b.rs".to_string(), Kind::Pass, Ok(())),
            CaseOutcome::new(
                "ui/c.rs".to_string(),
                Kind::Pass,
                Err(Failure::DidNotCompile {
                    stderr: "error: e\n\nnote: n\n".to_string(),
                }),
            ),
        ],
    );
    let report = "nocompile: 2 of 3 case(s) failed\n\nSETUP FAILED\n    no fixtures were registered \
         -- the suite would pass without testing anything\n\nFAIL ui/a.rs (compile_fail)\n    \
         expected a compile error, but the fixture compiled\n\nFAIL ui/c.rs (pass)\n    expected \
         the fixture to compile, but it did not:\n\n    error: e\n\n    note: n\n";
    assert_eq!(outcome.report(), report);
    assert_eq!(outcome.complaint(), Some(format!("\n{report}\n")));
    let names: Vec<&str> = outcome.failures().iter().map(|case| case.path()).collect();
    assert_eq!(names, ["ui/a.rs", "ui/c.rs"]);
}

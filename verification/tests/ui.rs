//! A UI suite, run against goldens.
//!
//! These fixtures assert language invariants. What they exercise is the harness end to
//! end, against goldens and what rustc says of each. The suite runs in [`Mode::Brief`]
//! on purpose: its goldens are committed, and it is expected to build on more than one
//! toolchain, which is the exact situation `Brief` exists for.

use nocompile::cases::{Entry, Listing};
use nocompile::environment::Environment;
use nocompile::run::{Reply, Request};
use nocompile::scratch::{bin_name, toml_string};
use nocompile::{Mode, TestCases};

/// Where the host crate is.
const BASE: &str = "/work/host";

/// A fixture: its path, its source, what rustc renders of it with `{}` for its file, and
/// its golden.
struct Fixture {
    path: &'static str,
    source: &'static str,
    rendered: &'static [&'static str],
    golden: &'static str,
}

/// The fixtures that must not compile.
const REJECTED: &[Fixture] = &[
    Fixture {
        path: "tests/ui/borrow_escapes_scope.rs",
        source: r#"// A borrow invariant: the reference must not outlive what it points at. An API
// designed so a reference cannot escape has that property only if the escaping
// version does not compile.
fn main() {
    let outer;
    {
        let inner = String::from("gone at the end of this block");
        outer = &inner;
    }
    println!("{outer}");
}
"#,
        rendered: &[
            r#"error[E0597]: `inner` does not live long enough
  --> {}:8:17
   |
 7 |         let inner = String::from("gone at the end of this block");
   |             ----- binding `inner` declared here
 8 |         outer = &inner;
   |                 ^^^^^^ borrowed value does not live long enough
 9 |     }
   |     - `inner` dropped here while still borrowed
10 |     println!("{outer}");
   |                ----- borrow later used here

"#,
        ],
        golden: r#"error[E0597]: `inner` does not live long enough
--> tests/ui/borrow_escapes_scope.rs:8:17
"#,
    },
    Fixture {
        path: "tests/ui/const_guard_fires_at_monomorphization.rs",
        source: r#"//! A guard that only exists after monomorphization.
//!
//! `cargo check` stops before codegen, so it never instantiates `split::<3>`
//! and reports nothing at all. This fixture is what pins the harness to
//! `cargo build`: if it ever moved to `check`, this golden would go empty.

pub fn split<const N: usize>() {
    const { assert!(N.is_power_of_two(), "N must be a power of two") };
}

fn main() {
    split::<3>();
}
"#,
        rendered: &[
            r#"error[E0080]: evaluation panicked: N must be a power of two
 --> {}:8:13
  |
8 |     const { assert!(N.is_power_of_two(), "N must be a power of two") };
  |             ^^^^^^^^^^^^^^^^^^^^^^^^^^^^^^^^^^^^^^^^^^^^^^^^^^^^^^^^ evaluation of `split::<3>::{constant#0}` failed here

"#,
            r#"note: erroneous constant encountered
 --> {}:8:5
  |
8 |     const { assert!(N.is_power_of_two(), "N must be a power of two") };
  |     ^^^^^^^^^^^^^^^^^^^^^^^^^^^^^^^^^^^^^^^^^^^^^^^^^^^^^^^^^^^^^^^^^^

"#,
            r#"note: the above error was encountered while instantiating `fn split::<3>`
  --> {}:12:5
   |
12 |     split::<3>();
   |     ^^^^^^^^^^^^

"#,
        ],
        golden: r#"error[E0080]: evaluation panicked: N must be a power of two
--> tests/ui/const_guard_fires_at_monomorphization.rs:8:13
--> tests/ui/const_guard_fires_at_monomorphization.rs:8:5
--> tests/ui/const_guard_fires_at_monomorphization.rs:12:5
"#,
    },
    Fixture {
        path: "tests/ui/custom_error_code.rs",
        source: r#"//! A library's own error code lives in the message, because rustc's `E0xxx`
//! registry is closed. `Brief` keeps primary messages, so the token is compared.

macro_rules! derive_serialize {
    ($t:ty) => {
        compile_error!("MYLIB-E001: expected a struct with named fields");
    };
}

derive_serialize!(u8);

fn main() {}
"#,
        rendered: &[
            r#"error: MYLIB-E001: expected a struct with named fields
  --> {}:6:9
   |
 6 |         compile_error!("MYLIB-E001: expected a struct with named fields");
   |         ^^^^^^^^^^^^^^^^^^^^^^^^^^^^^^^^^^^^^^^^^^^^^^^^^^^^^^^^^^^^^^^^^
...
10 | derive_serialize!(u8);
   | --------------------- in this macro invocation
   |
   = note: this error originates in the macro `derive_serialize` (in Nightly builds, run with -Z macro-backtrace for more info)

"#,
        ],
        golden: r#"error: MYLIB-E001: expected a struct with named fields
--> tests/ui/custom_error_code.rs:6:9
"#,
    },
    Fixture {
        path: "tests/ui/multi_line_message.rs",
        source: r#"//! A macro reporting misuse over more than one line.
//!
//! `Brief` keeps the whole message, not just its first line: those lines were
//! split where this fixture split them, so a change to the second one is a
//! change to the assertion. Without that, this golden and one ending `help:
//! derive on a struct, not a union` would compare equal.

compile_error!("MYLIB-E002: expected a struct with named fields\nhelp: derive on a struct, not an enum");

fn main() {}
"#,
        rendered: &[
            r#"error: MYLIB-E002: expected a struct with named fields
       help: derive on a struct, not an enum
 --> {}:8:1
  |
8 | compile_error!("MYLIB-E002: expected a struct with named fields\nhelp: derive on a struct, not an enum");
  | ^^^^^^^^^^^^^^^^^^^^^^^^^^^^^^^^^^^^^^^^^^^^^^^^^^^^^^^^^^^^^^^^^^^^^^^^^^^^^^^^^^^^^^^^^^^^^^^^^^^^^^^^^^

"#,
        ],
        golden: r#"error: MYLIB-E002: expected a struct with named fields
       help: derive on a struct, not an enum
--> tests/ui/multi_line_message.rs:8:1
"#,
    },
];

/// The fixture that must compile.
const ACCEPTED: &str = r#"// The other half of a UI suite: proof that the allowed form still compiles.
// Without one, nothing in the suite says the API is usable at all.
fn takes_two(a: u8, b: u8) -> u8 {
    a + b
}

fn main() {
    let total = takes_two(1, 2);
    let _x: u8 = total;
    let owned = String::from("lives long enough");
    let borrowed = &owned;
    println!("{borrowed} {total}");
}
"#;

/// What reading a directory gives.
fn listing(paths: &[&str]) -> Listing {
    let entry = |path: &&str| {
        Ok(Entry {
            path: format!("{BASE}/{path}"),
            is_file: true,
        })
    };
    Ok(paths.iter().map(entry).collect())
}

/// What a file of the host crate holds.
fn file(path: &str) -> Option<&'static str> {
    let relative = path.strip_prefix(BASE)?.strip_prefix('/')?;
    for fixture in REJECTED {
        if relative == fixture.path {
            return Some(fixture.source);
        }
        if relative == fixture.path.replace(".rs", ".stderr") {
            return Some(fixture.golden);
        }
    }
    (relative == "tests/ui-pass/accepted.rs").then_some(ACCEPTED)
}

/// What cargo says once everything was built.
fn cargo(manifest: &str) -> String {
    let place = |bin: &str| {
        format!(
            "\"manifest_path\":{},\"target\":{{\"name\":{}}}",
            toml_string(manifest),
            toml_string(bin)
        )
    };
    let mut out = String::new();
    for fixture in REJECTED {
        let bin = bin_name(fixture.path);
        for rendered in fixture.rendered {
            let rendered = rendered.replace("{}:", &format!("src/bin/{bin}.rs:"));
            out.push_str(&format!(
                "{{\"reason\":\"compiler-message\",{},\"message\":{{\"level\":\"error\",\"rendered\":{}}}}}\n",
                place(&bin),
                toml_string(&rendered)
            ));
        }
    }
    let accepted = place(&bin_name("tests/ui-pass/accepted.rs"));
    out.push_str(&format!("{{\"reason\":\"compiler-artifact\",{accepted}}}\n"));
    out.push_str("{\"reason\":\"build-finished\",\"success\":false}\n");
    out
}

#[test]
fn ui() {
    let mut t = TestCases::new(BASE, "host");
    t.mode(Mode::Brief);
    let mut paths: Vec<&str> = Vec::new();
    for fixture in REJECTED {
        paths.push(fixture.path);
    }
    paths.push("tests/ui/custom_error_code.stderr");
    t.compile_fail_dir("tests/ui", listing(&paths));
    t.pass_dir("tests/ui-pass", listing(&["tests/ui-pass/accepted.rs"]));

    let env = Environment {
        overwrite: None,
        cargo_home: None,
        home: None,
        target_dir: None,
        current_dir: None,
        ancestors: Vec::new(),
        variables: Vec::new(),
    };
    let mut staged: Vec<String> = Vec::new();
    let mut run = t.run(&env);
    loop {
        let reply = match run.request() {
            Request::Lock { .. } | Request::CreateDir { .. } => Reply::Done(Ok(())),
            Request::Read { path } => {
                Reply::Text(file(&path).map(str::to_string).ok_or("no such file".to_string()))
            }
            Request::Write { contents, .. } => {
                staged.push(contents);
                Reply::Done(Ok(()))
            }
            Request::Build { arguments, .. } => {
                Reply::Built(Ok((cargo(arguments.last().expect("a manifest")), String::new())))
            }
            Request::SameFile { others, .. } => Reply::Same(vec![false; others.len()]),
            Request::ReadGolden { path } => Reply::Golden(Ok(file(&path).map(str::to_string))),
            Request::WriteGolden { path, .. } => panic!("{path} was to be written"),
            Request::Nothing => break,
        };
        run = run.advance(reply);
    }
    assert_eq!(staged.len(), REJECTED.len() + 2);
    let outcome = run.outcome().expect("a finished run has an outcome");
    assert_eq!(outcome.cases().len(), REJECTED.len() + 1);
    assert_eq!(outcome.complaint(), None);
}

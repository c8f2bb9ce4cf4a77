use nocompile::compare::{filter, Mode};

/// The parts in order.
fn cat(parts: &[&str]) -> String {
    parts.concat()
}

const RENDERED: &str = "\
error[E0308]: mismatched types
  --> tests/ui/a.rs:4:17
   |
4  |     let x: u8 = \"s\";
   |            --   ^^^ expected `u8`, found `&str`
   |            |
   |            expected due to this
   |
   = note: this error originates in the macro `m`
help: try this
   |
4  |     let x: u8 = 0;
   |

error: aborting due to 1 previous error
";

#[test]
fn exact_is_the_identity() {
    assert_eq!(filter(RENDERED, Mode::Exact), RENDERED);
}

#[test]
fn brief_keeps_messages_and_spans_only() {
    assert_eq!(
        filter(RENDERED, Mode::Brief),
        "error[E0308]: mismatched types\n--> tests/ui/a.rs:4:17\nerror: aborting due to 1 previous error\n"
    );
}

#[test]
fn brief_is_idempotent_so_filtering_both_sides_is_safe() {
    let once = filter(RENDERED, Mode::Brief);
    assert_eq!(filter(&once, Mode::Brief), once);
}

#[test]
fn brief_ignores_gutter_width() {
    let narrow = filter("error: x\n --> a.rs:4:1\n", Mode::Brief);
    let wide = filter("error: x\n     --> a.rs:4:1\n", Mode::Brief);
    assert_eq!(narrow, wide);
}

const MULTI_LINE: &str = "\
error: MYLIB-E001: expected a struct with named fields
       found a tuple struct
 --> tests/ui/a.rs:6:9
  |
6 |     derive_it!();
  |     ^^^^^^^^^^^^
  |
  = note: this error originates in the macro `derive_it`
";

#[test]
fn brief_keeps_a_message_rustc_printed_over_more_than_one_line() {
    // The author's own text, split where the author split it. Dropping the
    // tail would let two fixtures whose messages differ only after the first
    // line compare equal, which for a macro reporting misuse is most of what
    // the golden was for.
    assert_eq!(
        filter(MULTI_LINE, Mode::Brief),
        cat(&[
            "error: MYLIB-E001: expected a struct with named fields\n",
            "       found a tuple struct\n",
            "--> tests/ui/a.rs:6:9\n",
        ])
    );
}

#[test]
fn brief_on_a_multi_line_message_is_idempotent() {
    let once = filter(MULTI_LINE, Mode::Brief);
    assert_eq!(filter(&once, Mode::Brief), once);
}

#[test]
fn brief_stops_keeping_indented_lines_at_the_span_header() {
    // The snippet rows are indented too, and they are exactly what `Brief`
    // exists to drop. Only the run between the message and its span header
    // is the message.
    assert!(!filter(MULTI_LINE, Mode::Brief).contains("derive_it!();"));
}

#[test]
fn brief_keeps_warnings() {
    assert_eq!(
        filter(
            "warning: unused variable: `x`\n --> a.rs:2:9\n  |\n",
            Mode::Brief
        ),
        "warning: unused variable: `x`\n--> a.rs:2:9\n"
    );
}

#[test]
fn brief_drops_indented_error_text_inside_a_snippet() {
    assert_eq!(filter("   error: not a header\n", Mode::Brief), "");
}

#[test]
fn mode_default_is_exact() {
    assert_eq!(Mode::default(), Mode::Exact);
}

#[test]
fn brief_drops_the_rows_of_a_diagnostic_without_a_span_header() {
    assert_eq!(
        filter(
            "error: linking with `cc` failed\n  |\n  = note: ld: symbol not found\n",
            Mode::Brief
        ),
        "error: linking with `cc` failed\n"
    );
    // A row ends the message, so what it is wrapped into goes with it.
    assert_eq!(
        filter(
            "error[E0463]: can't find crate\n  |\n  = note: a\n          b\n  = help: c\n",
            Mode::Brief
        ),
        "error[E0463]: can't find crate\n"
    );
}

#[test]
fn brief_keeps_an_authors_own_line_that_looks_like_a_row() {
    let text = "error: expected\n       | a | b |\n       = c\n --> a.rs:1:1\n  |\n  = note: n\n";
    let once = filter(text, Mode::Brief);
    assert_eq!(
        once,
        "error: expected\n       | a | b |\n       = c\n--> a.rs:1:1\n"
    );
    assert_eq!(filter(&once, Mode::Brief), once);
    // The width is that of the level and the code, not of the level alone.
    assert_eq!(
        filter("error[E0001]: m\n              = kept\n             = dropped\n", Mode::Brief),
        "error[E0001]: m\n              = kept\n"
    );
}

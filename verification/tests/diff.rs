use nocompile::diff::{diff, first_difference, unified, Edit};

#[test]
fn identical_texts_have_no_first_difference() {
    assert_eq!(first_difference("a\nb\n", "a\nb\n"), None);
}

#[test]
fn first_difference_is_one_based() {
    assert_eq!(first_difference("a\nb\nc\n", "a\nX\nc\n"), Some(2));
}

#[test]
fn a_truncated_text_differs_at_the_first_missing_line() {
    assert_eq!(first_difference("a\nb\n", "a\n"), Some(2));
    assert_eq!(first_difference("", "a\n"), Some(1));
}

#[test]
fn diff_marks_a_replaced_line() {
    let out = unified("a\nb\nc\n", "a\nX\nc\n", "golden", "actual");
    assert_eq!(
        out,
        "--- expected (golden)\n+++ actual (actual)\n a\n-b\n+X\n c\n"
    );
}

#[test]
fn diff_marks_an_inserted_line() {
    let out = unified("a\nc\n", "a\nb\nc\n", "g", "a");
    assert!(out.contains("+b\n"), "{out}");
    assert!(!out.contains("-a"), "{out}");
}

#[test]
fn long_unchanged_runs_are_collapsed() {
    let a: String = (0..40).map(|i| format!("line {i}\n")).collect();
    let mut b: Vec<String> = (0..40).map(|i| format!("line {i}\n")).collect();
    b[20] = "changed\n".to_string();
    let out = unified(&a, &b.concat(), "g", "a");
    assert!(out.contains("@@"), "{out}");
    assert!(out.contains("-line 20"), "{out}");
    assert!(out.contains("+changed"), "{out}");
    assert!(!out.contains("line 5"), "{out}");
}

#[test]
fn an_empty_golden_is_called_out() {
    let out = unified("", "error: x\n", "g", "a");
    assert!(out.contains("(the golden is empty)"), "{out}");
    assert!(out.contains("+error: x"), "{out}");
}

#[test]
fn two_separated_changes_interleave_rather_than_bulk_replace() {
    // The prefix/suffix trim cannot reduce this: the changed lines sit at
    // both ends of the middle, so only the LCS keeps `c`, `d` and `e`
    // recognized as unchanged. This is the shape a rustc release produces
    // when it reflows several messages in one golden, and without the LCS
    // the whole middle renders as N deletes followed by N inserts.
    let edits = diff(
        &["a", "B", "c", "d", "e", "F", "g"],
        &["a", "x", "c", "d", "e", "y", "g"],
    );
    assert_eq!(
        edits,
        vec![
            Edit::Same("a"),
            Edit::Delete("B"),
            Edit::Insert("x"),
            Edit::Same("c"),
            Edit::Same("d"),
            Edit::Same("e"),
            Edit::Delete("F"),
            Edit::Insert("y"),
            Edit::Same("g"),
        ]
    );
}

#[test]
fn lcs_prefers_a_common_subsequence_over_wholesale_replacement() {
    let edits = diff(&["a", "b", "c", "d"], &["a", "x", "c", "d"]);
    assert_eq!(
        edits,
        vec![
            Edit::Same("a"),
            Edit::Delete("b"),
            Edit::Insert("x"),
            Edit::Same("c"),
            Edit::Same("d"),
        ]
    );
}

use loomd::run::value::{one_line, value_line};

/// A value's line on a block is one short line: never a newline, never
/// wider than asked, and an ellipsis where some had to go.
#[test]
fn a_summary_is_one_short_line() {
    let line = one_line("error: linking with `cc` failed\n  = note: ld returned 1", 30);
    assert_eq!(line.chars().count(), 30);
    assert!(!line.contains('\n'));
    assert!(line.ends_with('…'));
    assert_eq!(line, "error: linking with `cc` fail…");
    // A short value is shown whole, without an ellipsis.
    assert_eq!(one_line("done", 30), "done");
    assert_eq!(one_line("  two\t\twords  ", 30), "two words");
    assert_eq!(one_line("", 30), "");
    assert_eq!(one_line("abc", 0), "");
    assert_eq!(value_line(Some("done"), 30), "done");
    assert_eq!(value_line(None, 30), "—");
}

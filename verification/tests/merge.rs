use jsp_lsp::merge::{merge_diagnostics, range_not_behind};
use jsp_lsp::model::{Diagnostic, Position, Severity, TextRange};

fn range(line: usize, from: usize, end_line: usize, to: usize) -> TextRange {
    TextRange {
        start: Position { line, character: from },
        end: Position { line: end_line, character: to },
    }
}

fn diagnostic(line: usize, from: usize, to: usize, severity: Severity, message: &str) -> Diagnostic {
    Diagnostic { range: range(line, from, line, to), severity, message: message.to_string() }
}

#[test]
fn merge_sorts_by_range() {
    let translated = vec![
        diagnostic(5, 0, 1, Severity::Error, "e"),
        diagnostic(1, 4, 6, Severity::Error, "b"),
        diagnostic(1, 4, 5, Severity::Error, "a"),
    ];
    let structural = vec![
        diagnostic(3, 0, 2, Severity::Warning, "d"),
        diagnostic(1, 9, 11, Severity::Warning, "c"),
    ];
    let out = merge_diagnostics(&translated, &structural);
    let messages: Vec<&str> = out.iter().map(|d| d.message.as_str()).collect();
    assert_eq!(messages, vec!["a", "b", "c", "d", "e"]);
}

#[test]
fn merge_keeps_each_finding_once() {
    let translated = vec![
        diagnostic(2, 0, 2, Severity::Error, "same"),
        diagnostic(2, 0, 2, Severity::Error, "other"),
        diagnostic(2, 0, 2, Severity::Hint, "same"),
    ];
    let structural = vec![
        diagnostic(2, 0, 2, Severity::Warning, "same"),
        diagnostic(2, 0, 3, Severity::Warning, "same"),
    ];
    let out = merge_diagnostics(&translated, &structural);
    assert_eq!(out.len(), 3);
    assert_eq!(out[0], diagnostic(2, 0, 2, Severity::Error, "same"));
    assert_eq!(out[1], diagnostic(2, 0, 2, Severity::Error, "other"));
    assert_eq!(out[2], diagnostic(2, 0, 3, Severity::Warning, "same"));
}

#[test]
fn merge_of_nothing_is_nothing() {
    assert!(merge_diagnostics(&Vec::new(), &Vec::new()).is_empty());
}

#[test]
fn merge_keeps_the_order_of_equal_ranges() {
    let translated = vec![diagnostic(0, 0, 1, Severity::Error, "second")];
    let structural = vec![diagnostic(0, 0, 1, Severity::Warning, "first")];
    let out = merge_diagnostics(&structural, &translated);
    assert_eq!(out[0].message, "first");
    assert_eq!(out[1].message, "second");
}

#[test]
fn range_order_goes_by_start_then_end() {
    assert!(range_not_behind(range(1, 0, 9, 9), range(1, 1, 1, 2)));
    assert!(!range_not_behind(range(1, 1, 1, 2), range(1, 0, 9, 9)));
    assert!(range_not_behind(range(1, 1, 1, 2), range(1, 1, 1, 3)));
    assert!(!range_not_behind(range(1, 1, 2, 0), range(1, 1, 1, 3)));
    assert!(range_not_behind(range(1, 1, 1, 2), range(1, 1, 1, 2)));
    assert!(range_not_behind(range(0, 9, 0, 9), range(1, 0, 1, 0)));
}

use gsqz::primitives::filter::{filter_lines, keep_lines_flagged};

#[test]
fn test_filter_removes_matching() {
    let lines = vec![
        "keep this".into(),
        "  ".into(),
        "also keep".into(),
        "On branch main".into(),
    ];
    let patterns = vec![r"^\s*$".into(), r"^On branch ".into()];
    let result = filter_lines(lines, &patterns);
    assert_eq!(result, vec!["keep this", "also keep"]);
}

#[test]
fn test_filter_empty_patterns() {
    let lines = vec!["a".into(), "b".into()];
    let result = filter_lines(lines, &[]);
    assert_eq!(result, vec!["a", "b"]);
}

#[test]
fn test_filter_empty_lines() {
    let result = filter_lines(vec![], &["something".into()]);
    assert!(result.is_empty());
}

#[test]
fn test_filter_removes_all() {
    let lines = vec!["aaa".into(), "aab".into(), "aac".into()];
    let result = filter_lines(lines, &["^aa".into()]);
    assert!(result.is_empty());
}

#[test]
fn test_filter_removes_none() {
    let lines = vec!["keep".into(), "also keep".into()];
    let result = filter_lines(lines, &["^NOPE".into()]);
    assert_eq!(result, vec!["keep", "also keep"]);
}

#[test]
fn test_filter_multiple_patterns() {
    let lines = vec![
        "error: bad".into(),
        "warning: meh".into(),
        "info: ok".into(),
        "debug: verbose".into(),
    ];
    let patterns = vec!["^warning".into(), "^debug".into()];
    let result = filter_lines(lines, &patterns);
    assert_eq!(result, vec!["error: bad", "info: ok"]);
}

#[test]
fn test_filter_invalid_regex_skipped() {
    let lines: Vec<String> = vec!["keep".into(), "drop".into()];
    // Invalid regex pattern should be silently skipped
    let result = filter_lines(lines.clone(), &["[invalid".into()]);
    assert_eq!(result, lines);
}

#[test]
fn filter_twice_is_filter_once() {
    let lines: Vec<String> = vec!["x1".into(), "y2".into(), "x3".into(), "z".into()];
    let patterns: Vec<String> = vec!["^x".into(), "[invalid".into()];
    let once = filter_lines(lines, &patterns);
    let twice = filter_lines(once.clone(), &patterns);
    assert_eq!(once, vec!["y2", "z"]);
    assert_eq!(twice, once);
}

#[test]
fn keep_lines_flagged_selects_by_flag() {
    let lines: Vec<String> = vec!["a\n", "b\n", "c\n"].into_iter().map(String::from).collect();
    let flags = vec![true, false, true];
    assert_eq!(keep_lines_flagged(&lines, &flags, true), vec!["a\n", "c\n"]);
    assert_eq!(keep_lines_flagged(&lines, &flags, false), vec!["b\n"]);
}

use gsqz::primitives::dedup::{collapse_runs, dedup};

#[test]
fn test_dedup_identical() {
    let lines = vec!["same\n".into(), "same\n".into(), "same\n".into()];
    let result = dedup(lines);
    assert_eq!(result.len(), 2);
    assert_eq!(result[0], "same\n");
    assert!(result[1].contains("repeated 3 times"));
}

#[test]
fn test_dedup_near_identical() {
    let lines = vec![
        "line 1: error at pos 42\n".into(),
        "line 2: error at pos 99\n".into(),
        "line 3: error at pos 7\n".into(),
    ];
    let result = dedup(lines);
    assert_eq!(result.len(), 2); // first line + "repeated 3 times"
    assert!(result[1].contains("repeated 3 times"));
}

#[test]
fn test_dedup_different() {
    let lines = vec!["a\n".into(), "b\n".into(), "c\n".into()];
    let result = dedup(lines);
    assert_eq!(result, vec!["a\n", "b\n", "c\n"]);
}

#[test]
fn test_dedup_empty() {
    let result = dedup(vec![]);
    assert!(result.is_empty());
}

#[test]
fn test_dedup_single_line() {
    let result = dedup(vec!["only one\n".into()]);
    assert_eq!(result, vec!["only one\n"]);
}

#[test]
fn test_dedup_two_identical() {
    let result = dedup(vec!["same\n".into(), "same\n".into()]);
    assert_eq!(result.len(), 2);
    assert_eq!(result[0], "same\n");
    assert!(result[1].contains("repeated 2 times"));
}

#[test]
fn test_dedup_mixed_groups() {
    let lines = vec![
        "error at line 1\n".into(),
        "error at line 2\n".into(),
        "error at line 3\n".into(),
        "warning: something\n".into(),
        "warning: something\n".into(),
        "different line\n".into(),
    ];
    let result = dedup(lines);
    assert!(result.iter().any(|l| l.contains("repeated 3 times")));
    assert!(result.iter().any(|l| l.contains("repeated 2 times")));
    assert!(result.iter().any(|l| l.contains("different line")));
}

#[test]
fn test_dedup_non_consecutive_identical_not_collapsed() {
    let lines = vec!["aaa\n".into(), "bbb\n".into(), "aaa\n".into()];
    let result = dedup(lines);
    assert_eq!(result, vec!["aaa\n", "bbb\n", "aaa\n"]);
}

#[test]
fn dedup_every_run_shows_its_first_line_and_count() {
    let lines = vec![
        "error at line 1\n".into(),
        "error at line 2\n".into(),
        "warning: x\n".into(),
        "warning: x\n".into(),
        "warning: x\n".into(),
        "end\n".into(),
    ];
    let result = dedup(lines);
    assert_eq!(
        result,
        vec![
            "error at line 1\n",
            "  [repeated 2 times]\n",
            "warning: x\n",
            "  [repeated 3 times]\n",
            "end\n",
        ]
    );
}

#[test]
fn dedup_ignores_surrounding_whitespace() {
    let lines = vec!["  item 1\n".into(), "item 22   \n".into()];
    let result = dedup(lines);
    assert_eq!(result, vec!["  item 1\n", "  [repeated 2 times]\n"]);
}

#[test]
fn dedup_never_lengthens_output() {
    let lines: Vec<String> = (0..10).map(|i| format!("row {}\n", i % 3)).collect();
    let n = lines.len();
    let result = dedup(lines);
    assert!(result.len() <= n);
    assert_eq!(result, vec!["row 0\n", "  [repeated 10 times]\n"]);
}

fn chars(s: &str) -> Vec<char> {
    s.chars().collect()
}

#[test]
fn collapse_runs_goes_by_the_given_forms() {
    let lines: Vec<String> = vec!["x1\n", "y2\n", "z3\n", "w\n"].into_iter().map(String::from).collect();
    // The first three lines share a form, whatever their text.
    let forms = vec![chars("k"), chars("k"), chars("k"), chars("w")];
    let result = collapse_runs(lines, &forms);
    assert_eq!(result, vec!["x1\n", "  [repeated 3 times]\n", "w\n"]);
}

#[test]
fn collapse_runs_keeps_singletons_and_empty_input() {
    let lines: Vec<String> = vec!["a\n", "b\n"].into_iter().map(String::from).collect();
    let forms = vec![chars("a"), chars("b")];
    assert_eq!(collapse_runs(lines.clone(), &forms), lines);
    assert!(collapse_runs(Vec::new(), &Vec::new()).is_empty());
}

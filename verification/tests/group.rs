use gsqz::primitives::group::{
    assemble_errors_warnings, assemble_keyed, pytest_sections, select_failures, Layout,
    PytestMarks, group_by_directory, group_by_extension, group_by_file, group_errors_warnings,
    group_git_status, group_lines, group_lint_by_rule, group_pytest_failures,
    group_test_failures,
};

#[test]
fn test_git_status_grouping() {
    let lines = vec![
        " M src/main.rs\n".into(),
        " M src/lib.rs\n".into(),
        "?? new_file.txt\n".into(),
        " D old_file.txt\n".into(),
    ];
    let result = group_git_status(lines);
    assert!(result[0].contains("Modified (2)"));
    assert!(result.iter().any(|l| l.contains("Untracked (1)")));
    assert!(result.iter().any(|l| l.contains("Deleted (1)")));
}

#[test]
fn test_errors_warnings_grouping() {
    let lines = vec![
        "error: something broke\n".into(),
        "warning: deprecated\n".into(),
        "info: all good\n".into(),
        "error: another thing\n".into(),
    ];
    let result = group_errors_warnings(lines);
    assert!(result[0].contains("Errors (2)"));
    assert!(result.iter().any(|l| l.contains("Warnings (1)")));
}

#[test]
fn test_all_tests_passed() {
    let lines = vec![
        "running tests\n".into(),
        "test a ... ok\n".into(),
        "test b ... ok\n".into(),
    ];
    let result = group_test_failures(lines);
    assert_eq!(result, vec!["All tests passed.\n"]);
}

#[test]
fn test_group_lines_dispatcher_unknown_mode() {
    let lines = vec!["a\n".into(), "b\n".into()];
    let result = group_lines(lines.clone(), "nonexistent_mode");
    assert_eq!(result, lines);
}

#[test]
fn test_group_lines_dispatcher_git_status() {
    let lines = vec![" M foo.rs\n".into()];
    let result = group_lines(lines, "git_status");
    assert!(result[0].contains("Modified"));
}

#[test]
fn test_git_status_empty() {
    let result = group_git_status(vec![]);
    assert!(result.is_empty());
}

#[test]
fn test_git_status_non_status_lines() {
    let lines = vec!["On branch main\n".into(), "nothing to commit\n".into()];
    let result = group_git_status(lines.clone());
    // Non-matching lines go into "other"
    assert_eq!(result, lines);
}

#[test]
fn test_git_status_many_files_truncated() {
    let mut lines = Vec::new();
    for i in 0..30 {
        lines.push(format!(" M src/file_{}.rs\n", i));
    }
    let result = group_git_status(lines);
    assert!(result.iter().any(|l| l.contains("Modified (30)")));
    assert!(result.iter().any(|l| l.contains("and 10 more")));
}

#[test]
fn test_pytest_failures_extracts_sections() {
    let lines = vec![
        "collecting ...\n".into(),
        "test_foo.py::test_one PASSED\n".into(),
        "======== FAILURES ========\n".into(),
        "___ test_two ___\n".into(),
        "assert False\n".into(),
        "======== short test summary ========\n".into(),
        "FAILED test_foo.py::test_two\n".into(),
        "======== 1 failed, 1 passed ========\n".into(),
    ];
    let result = group_pytest_failures(lines);
    assert!(result.iter().any(|l| l.contains("FAILURES")));
    assert!(result.iter().any(|l| l.contains("assert False")));
    assert!(result.iter().any(|l| l.contains("short test summary")));
}

#[test]
fn test_pytest_failures_no_failures_delegates() {
    let lines = vec![
        "test_foo.py::test_one PASSED\n".into(),
        "1 passed in 0.5s\n".into(),
    ];
    let result = group_pytest_failures(lines);
    // Falls through to group_test_failures which finds summary line
    assert!(result.iter().any(|l| l.contains("passed")));
}

#[test]
fn test_test_failures_captures_fail_lines() {
    let lines = vec![
        "ok: test_a\n".into(),
        "FAIL: test_b\n".into(),
        "  expected 1 got 2\n".into(),
        "ok: test_c\n".into(),
    ];
    let result = group_test_failures(lines);
    assert!(result.iter().any(|l| l.contains("FAIL")));
}

#[test]
fn test_lint_by_rule_groups() {
    let lines = vec![
        "src/main.rs:10: E401 unused import\n".into(),
        "src/main.rs:20: E401 unused import\n".into(),
        "src/lib.rs:5: E302 expected 2 blank lines\n".into(),
    ];
    let result = group_lint_by_rule(lines);
    assert!(result.iter().any(|l| l.contains("[E401] (2 occurrences)")));
    assert!(result.iter().any(|l| l.contains("[E302] (1 occurrences)")));
}

#[test]
fn test_lint_by_rule_no_rules() {
    let lines = vec!["no lint errors here\n".into()];
    let result = group_lint_by_rule(lines.clone());
    assert_eq!(result, lines);
}

#[test]
fn test_lint_by_rule_many_occurrences_truncated() {
    let lines: Vec<String> = (0..10)
        .map(|i| format!("src/file_{}.rs:{}: E401 unused\n", i, i))
        .collect();
    let result = group_lint_by_rule(lines);
    assert!(result.iter().any(|l| l.contains("[E401] (10 occurrences)")));
    assert!(result.iter().any(|l| l.contains("and 5 more")));
}

#[test]
fn test_by_extension_groups() {
    let lines = vec![
        "src/main.rs\n".into(),
        "src/lib.rs\n".into(),
        "README.md\n".into(),
    ];
    let result = group_by_extension(lines);
    assert!(result.iter().any(|l| l.contains(".rs (2 files)")));
    assert!(result.iter().any(|l| l.contains(".md (1 file)")));
}

#[test]
fn test_by_extension_empty() {
    let result = group_by_extension(vec![]);
    assert!(result.is_empty());
}

#[test]
fn test_by_extension_no_extension() {
    let lines = vec!["Makefile\n".into(), "Dockerfile\n".into()];
    let result = group_by_extension(lines);
    // Files without dots get "(no ext)" — but actually "Makefile" has no dot
    // so rfind('.') returns None → "(no ext)"
    assert!(result.iter().any(|l| l.contains("(no ext)")));
}

#[test]
fn test_by_directory_groups() {
    let lines = vec![
        "src/main.rs\n".into(),
        "src/lib.rs\n".into(),
        "tests/test_one.rs\n".into(),
    ];
    let result = group_by_directory(lines);
    assert!(result.iter().any(|l| l.contains("src/ (2 items)")));
    assert!(result.iter().any(|l| l.contains("tests/ (1 item)")));
}

#[test]
fn test_by_directory_no_slash() {
    let lines = vec!["README.md\n".into()];
    let result = group_by_directory(lines);
    assert!(result.iter().any(|l| l.contains("./")));
}

#[test]
fn test_by_file_grep_style() {
    let lines = vec![
        "src/main.rs:10: fn main()\n".into(),
        "src/main.rs:20: fn helper()\n".into(),
        "src/lib.rs:5: pub fn api()\n".into(),
    ];
    let result = group_by_file(lines);
    assert!(result.iter().any(|l| l.contains("src/main.rs (2 matches)")));
    assert!(result.iter().any(|l| l.contains("src/lib.rs (1 match)")));
}

#[test]
fn test_by_file_no_grep_format() {
    let lines = vec!["not a grep line\n".into()];
    let result = group_by_file(lines.clone());
    assert_eq!(result, lines);
}

#[test]
fn test_by_file_many_matches_truncated() {
    let lines: Vec<String> = (0..10)
        .map(|i| format!("big_file.rs:{}: some match\n", i + 1))
        .collect();
    let result = group_by_file(lines);
    assert!(result
        .iter()
        .any(|l| l.contains("big_file.rs (10 matches)")));
    assert!(result.iter().any(|l| l.contains("and 5 more")));
}

#[test]
fn test_errors_warnings_empty() {
    let lines = vec!["all good\n".into()];
    let result = group_errors_warnings(lines.clone());
    assert_eq!(result, lines);
}

#[test]
fn test_errors_warnings_only_errors() {
    let lines = vec![
        "error: first\n".into(),
        "error: second\n".into(),
        "summary line\n".into(),
    ];
    let result = group_errors_warnings(lines);
    assert!(result[0].contains("Errors (2)"));
    // No warnings section
    assert!(!result.iter().any(|l| l.contains("Warnings")));
}

#[test]
fn test_errors_warnings_only_warnings() {
    let lines = vec!["warning: deprecated\n".into(), "info line\n".into()];
    let result = group_errors_warnings(lines);
    assert!(result.iter().any(|l| l.contains("Warnings (1)")));
    assert!(!result.iter().any(|l| l.contains("Errors")));
}

#[test]
fn test_errors_warnings_many_truncated() {
    let mut lines: Vec<String> = (0..25).map(|i| format!("error: problem {}\n", i)).collect();
    lines.extend((0..15).map(|i| format!("warning: issue {}\n", i)));
    let result = group_errors_warnings(lines);
    assert!(result.iter().any(|l| l.contains("Errors (25)")));
    assert!(result.iter().any(|l| l.contains("and 5 more errors")));
    assert!(result.iter().any(|l| l.contains("Warnings (15)")));
    assert!(result.iter().any(|l| l.contains("and 5 more warnings")));
}

#[test]
fn git_status_exact_layout() {
    let lines = vec![
        " M a.rs\n".into(),
        "?? b.txt\n".into(),
        "\n".into(),
        "On branch main\n".into(),
        " M c.rs\n".into(),
    ];
    let result = group_git_status(lines);
    assert_eq!(
        result,
        vec![
            "Modified (2):\n",
            "  a.rs\n",
            "  c.rs\n",
            "Untracked (1):\n",
            "  b.txt\n",
            "On branch main\n",
        ]
    );
}

#[test]
fn git_status_unknown_code_keeps_its_code() {
    let result = group_git_status(vec!["!! ignored.txt\n".into()]);
    assert_eq!(result, vec!["!! (1):\n", "  ignored.txt\n"]);
}

#[test]
fn by_extension_orders_by_count_then_name() {
    let lines = vec![
        "b.md\n".into(),
        "x.rs\n".into(),
        "a.md\n".into(),
        "y.rs\n".into(),
        "z.txt\n".into(),
        "\n".into(),
    ];
    let result = group_by_extension(lines);
    assert_eq!(
        result,
        vec![
            ".md (2 files):\n",
            "  b.md\n",
            "  a.md\n",
            ".rs (2 files):\n",
            "  x.rs\n",
            "  y.rs\n",
            ".txt (1 file):\n",
            "  z.txt\n",
        ]
    );
}

#[test]
fn by_extension_uses_last_word() {
    let result = group_by_extension(vec!["-rw-r--r-- 1 me  notes.final.TXT\n".into()]);
    assert_eq!(result, vec![".TXT (1 file):\n", "  -rw-r--r-- 1 me  notes.final.TXT\n"]);
}

#[test]
fn by_directory_shows_ten_then_more() {
    let lines: Vec<String> = (0..12).map(|i| format!("d/f{}\n", i)).collect();
    let result = group_by_directory(lines);
    assert_eq!(result.len(), 12);
    assert_eq!(result[0], "d/ (12 items):\n");
    assert_eq!(result[1], "  d/f0\n");
    assert_eq!(result[10], "  d/f9\n");
    assert_eq!(result[11], "  [... and 2 more]\n");
}

#[test]
fn by_file_keeps_other_lines_after_groups() {
    let lines = vec![
        "a.rs:1: x\n".into(),
        "note\n".into(),
        "b.rs:2: y\n".into(),
        "a.rs:3: z\n".into(),
    ];
    let result = group_by_file(lines);
    assert_eq!(
        result,
        vec![
            "a.rs (2 matches):\n",
            "  a.rs:1: x\n",
            "  a.rs:3: z\n",
            "b.rs (1 match):\n",
            "  b.rs:2: y\n",
            "note\n",
        ]
    );
}

#[test]
fn lint_by_rule_bracket_rule() {
    let lines = vec![
        "src/x.ts:1:1 error no semicolon [semi]\n".into(),
        "plain\n".into(),
    ];
    let result = group_lint_by_rule(lines);
    assert_eq!(
        result,
        vec![
            "[semi] (1 occurrences):\n",
            "  src/x.ts:1:1 error no semicolon [semi]\n",
            "plain\n",
        ]
    );
}

#[test]
fn errors_warnings_keeps_last_three_other_lines() {
    let lines = vec![
        "o1\n".into(),
        "Error: boom\n".into(),
        "o2\n".into(),
        "WARN slow\n".into(),
        "o3\n".into(),
        "o4\n".into(),
    ];
    let result = group_errors_warnings(lines);
    assert_eq!(
        result,
        vec![
            "Errors (1):\n",
            "Error: boom\n",
            "\nWarnings (1):\n",
            "WARN slow\n",
            "o2\n",
            "o3\n",
            "o4\n",
        ]
    );
}

#[test]
fn test_failures_from_first_failure_on() {
    let lines = vec![
        "ok 1\n".into(),
        "--- FAIL: TestX\n".into(),
        "detail\n".into(),
        "ok 2\n".into(),
    ];
    let result = group_test_failures(lines);
    assert_eq!(result, vec!["--- FAIL: TestX\n", "detail\n", "ok 2\n"]);
}

#[test]
fn test_failures_summary_lines_when_no_failure() {
    let lines = vec!["running\n".into(), "5 passed in 1s\n".into()];
    let result = group_test_failures(lines);
    assert_eq!(result, vec!["5 passed in 1s\n"]);
}

#[test]
fn pytest_keeps_sections_and_final_count() {
    let lines = vec![
        "test_a.py .\n".into(),
        "===== FAILURES =====\n".into(),
        "boom\n".into(),
        "===== short test summary info =====\n".into(),
        "FAILED test_a.py::t\n".into(),
        "===== 1 failed in 0.1s =====\n".into(),
        "trailing\n".into(),
    ];
    let result = group_pytest_failures(lines);
    assert_eq!(
        result,
        vec![
            "===== FAILURES =====\n",
            "boom\n",
            "===== short test summary info =====\n",
            "FAILED test_a.py::t\n",
            "===== 1 failed in 0.1s =====\n",
        ]
    );
}

#[test]
fn group_lines_dispatches_every_mode() {
    let lines: Vec<String> = vec!["x/y.rs\n".into()];
    assert_eq!(group_lines(lines.clone(), "by_directory"), vec!["x/ (1 item):\n", "  x/y.rs\n"]);
    assert_eq!(group_lines(lines.clone(), "by_extension"), vec![".rs (1 file):\n", "  x/y.rs\n"]);
    assert_eq!(group_lines(lines.clone(), "test_failures"), vec!["All tests passed.\n"]);
    assert_eq!(group_lines(lines.clone(), "errors_warnings"), lines);
    assert_eq!(group_lines(lines.clone(), "by_file"), lines);
    assert_eq!(group_lines(lines.clone(), "lint_by_rule"), lines);
}

fn owned(v: &[&str]) -> Vec<String> {
    v.iter().map(|s| s.to_string()).collect()
}

fn pair(k: &str, x: &str) -> (Vec<char>, Vec<char>) {
    (k.chars().collect(), x.chars().collect())
}

#[test]
fn assemble_keyed_groups_pairs_in_first_seen_order() {
    let lines = owned(&["ignored\n"]);
    let pairs = vec![pair("E1", "a.py:1 E1 x\n"), pair("W2", "b.py:2 W2 y\n"), pair("E1", "c.py:3 E1 z\n")];
    let others = owned(&["Found 3 errors\n"]);
    let result = assemble_keyed(Layout::LintByRule, lines, &pairs, &others);
    assert_eq!(
        result,
        vec![
            "[E1] (2 occurrences):\n",
            "  a.py:1 E1 x\n",
            "  c.py:3 E1 z\n",
            "[W2] (1 occurrences):\n",
            "  b.py:2 W2 y\n",
            "Found 3 errors\n",
        ]
    );
}

#[test]
fn assemble_keyed_without_pairs_returns_the_lines() {
    let lines = owned(&["a\n", "b\n"]);
    let result = assemble_keyed(Layout::ByFile, lines.clone(), &Vec::new(), &owned(&["a\n"]));
    assert_eq!(result, lines);
    // Git status always reports its groups, here none.
    let result = assemble_keyed(Layout::GitStatus, lines, &Vec::new(), &owned(&["x\n"]));
    assert_eq!(result, vec!["x\n"]);
}

#[test]
fn assemble_keyed_sorts_extensions_by_size() {
    let pairs = vec![pair(".rs", "a.rs"), pair(".py", "b.py"), pair(".py", "c.py")];
    let result = assemble_keyed(Layout::ByExtension, Vec::new(), &pairs, &Vec::new());
    assert_eq!(
        result,
        vec![".py (2 files):\n", "  b.py\n", "  c.py\n", ".rs (1 file):\n", "  a.rs\n"]
    );
}

#[test]
fn assemble_errors_warnings_counts_and_keeps_last_other_lines() {
    let lines = owned(&["whatever\n"]);
    let errors = owned(&["error: a\n"]);
    let warnings = owned(&["warning: b\n", "warning: c\n"]);
    let other = owned(&["o1\n", "o2\n", "o3\n", "o4\n"]);
    let result = assemble_errors_warnings(lines, &errors, &warnings, &other);
    assert_eq!(
        result,
        vec![
            "Errors (1):\n",
            "error: a\n",
            "\nWarnings (2):\n",
            "warning: b\n",
            "warning: c\n",
            "o2\n",
            "o3\n",
            "o4\n",
        ]
    );
}

#[test]
fn assemble_errors_warnings_without_either_returns_the_lines() {
    let lines = owned(&["a\n", "b\n"]);
    let result = assemble_errors_warnings(lines.clone(), &Vec::new(), &Vec::new(), &lines);
    assert_eq!(result, lines);
}

#[test]
fn select_failures_starts_at_first_opening_line() {
    let lines = owned(&["a\n", "b\n", "c\n", "d\n"]);
    let result = select_failures(lines, &vec![false, true, true, false], &vec![true, false, false, false]);
    assert_eq!(result, vec!["b\n", "c\n", "d\n"]);
}

#[test]
fn select_failures_falls_back_to_summaries_then_all_passed() {
    let lines = owned(&["a\n", "b\n", "c\n"]);
    let result = select_failures(lines.clone(), &vec![false; 3], &vec![false, true, true]);
    assert_eq!(result, vec!["b\n", "c\n"]);
    let result = select_failures(lines, &vec![false; 3], &vec![false; 3]);
    assert_eq!(result, vec!["All tests passed.\n"]);
}

fn marks(f: bool, s: bool, b: bool, t: bool) -> PytestMarks {
    PytestMarks { failures_header: f, summary_header: s, boundary: b, final_summary: t }
}

#[test]
fn pytest_sections_follows_the_marks() {
    let lines = owned(&["noise\n", "FAIL\n", "detail\n", "SUMMARY\n", "s1\n", "END\n", "after\n", "count\n"]);
    let none = marks(false, false, false, false);
    let ms = vec![
        none,
        marks(true, false, false, false),
        none,
        marks(false, true, false, false),
        none,
        marks(false, false, true, false),
        none,
        marks(false, false, false, true),
    ];
    let result = pytest_sections(&lines, &ms);
    // The summary header closes the failures section; after the boundary
    // only final count lines are kept.
    assert_eq!(result, vec!["FAIL\n", "detail\n", "SUMMARY\n", "s1\n", "END\n", "count\n"]);
}

#[test]
fn by_extension_ties_go_in_key_order() {
    let lines = owned(&["z.rs\n", "a.py\n", "m.md\n"]);
    let result = group_by_extension(lines);
    assert_eq!(
        result,
        vec![".md (1 file):\n", "  m.md\n", ".py (1 file):\n", "  a.py\n", ".rs (1 file):\n", "  z.rs\n"]
    );
}

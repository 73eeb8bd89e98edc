use gsqz::primitives::truncate::{shorten_sections, truncate};

#[test]
fn test_truncate_short_input() {
    let lines: Vec<String> = (0..5).map(|i| format!("line {}", i)).collect();
    let result = truncate(lines.clone(), 3, 3, 0, "");
    assert_eq!(result, lines);
}

#[test]
fn test_truncate_long_input() {
    let lines: Vec<String> = (0..100).map(|i| format!("line {}", i)).collect();
    let result = truncate(lines, 3, 2, 0, "");
    assert_eq!(result.len(), 6); // 3 head + 1 marker + 2 tail
    assert!(result[3].contains("95 lines omitted"));
    assert_eq!(result[4], "line 98");
    assert_eq!(result[5], "line 99");
}

#[test]
fn test_truncate_per_section() {
    let mut lines = Vec::new();
    for i in 0..10 {
        lines.push(format!("@@ section {}", i));
        for j in 0..5 {
            lines.push(format!("  content {}:{}", i, j));
        }
    }
    let result = truncate(lines, 0, 0, 3, r"^@@\s");
    // Each 6-line section (marker + 5 content) should be truncated to 3
    assert!(
        result
            .iter()
            .any(|l| l.contains("lines omitted in section"))
    );
}

#[test]
fn test_truncate_empty_input() {
    let result = truncate(vec![], 5, 5, 0, "");
    assert!(result.is_empty());
}

#[test]
fn test_truncate_exact_boundary() {
    // Exactly head + tail lines — no truncation
    let lines: Vec<String> = (0..10).map(|i| format!("line {}", i)).collect();
    let result = truncate(lines.clone(), 5, 5, 0, "");
    assert_eq!(result, lines);
}

#[test]
fn test_truncate_one_over_boundary() {
    let lines: Vec<String> = (0..11).map(|i| format!("line {}\n", i)).collect();
    let result = truncate(lines, 5, 5, 0, "");
    assert_eq!(result.len(), 11); // 5 head + 1 marker + 5 tail
    assert!(result[5].contains("1 lines omitted"));
}

#[test]
fn test_truncate_head_only() {
    let lines: Vec<String> = (0..20).map(|i| format!("line {}\n", i)).collect();
    let result = truncate(lines, 10, 0, 0, "");
    assert_eq!(result.len(), 11); // 10 head + 1 marker
    assert!(result[10].contains("10 lines omitted"));
}

#[test]
fn test_truncate_tail_only() {
    let lines: Vec<String> = (0..20).map(|i| format!("line {}\n", i)).collect();
    let result = truncate(lines, 0, 5, 0, "");
    assert_eq!(result.len(), 6); // 1 marker + 5 tail
    assert!(result[0].contains("15 lines omitted"));
    assert_eq!(result[1], "line 15\n");
}

#[test]
fn test_truncate_per_section_small_sections_unchanged() {
    let mut lines = Vec::new();
    for i in 0..3 {
        lines.push(format!("@@ section {}", i));
        lines.push(format!("  line {}", i));
    }
    let result = truncate(lines.clone(), 0, 0, 10, r"^@@\s");
    // Each section is only 2 lines, well under max of 10
    assert_eq!(result, lines);
}

#[test]
fn test_truncate_per_section_invalid_regex() {
    let lines: Vec<String> = vec!["a".into(), "b".into()];
    let result = truncate(lines.clone(), 0, 0, 3, "[invalid");
    // Invalid regex returns lines unchanged
    assert_eq!(result, lines);
}

#[test]
fn test_truncate_preserves_head_tail_content() {
    let lines: Vec<String> = (0..100).map(|i| format!("line {}\n", i)).collect();
    let result = truncate(lines, 3, 3, 0, "");
    assert_eq!(result[0], "line 0\n");
    assert_eq!(result[1], "line 1\n");
    assert_eq!(result[2], "line 2\n");
    assert!(result[3].contains("omitted"));
    assert_eq!(result[4], "line 97\n");
    assert_eq!(result[5], "line 98\n");
    assert_eq!(result[6], "line 99\n");
}

#[test]
fn truncate_marker_text_is_exact() {
    let lines: Vec<String> = (0..7).map(|i| format!("l{}\n", i)).collect();
    let result = truncate(lines, 2, 2, 0, "");
    assert_eq!(
        result,
        vec!["l0\n", "l1\n", "\n[... 3 lines omitted ...]\n", "l5\n", "l6\n"]
    );
}

#[test]
fn truncate_per_section_exact() {
    let lines: Vec<String> = vec![
        "@@ a".into(),
        "1".into(),
        "2".into(),
        "3".into(),
        "4".into(),
        "@@ b".into(),
        "5".into(),
    ];
    let result = truncate(lines, 0, 0, 3, r"^@@\s");
    assert_eq!(
        result,
        vec![
            "@@ a",
            "1",
            "  [... 2 lines omitted in section ...]\n",
            "4",
            "@@ b",
            "5",
        ]
    );
}

#[test]
fn truncate_per_section_needs_a_marker_pattern() {
    let lines: Vec<String> = (0..30).map(|i| format!("x{}", i)).collect();
    // An empty marker falls back to head and tail.
    let result = truncate(lines, 1, 1, 3, "");
    assert_eq!(result, vec!["x0", "\n[... 28 lines omitted ...]\n", "x29"]);
}

#[test]
fn shorten_sections_cuts_each_flagged_section() {
    let lines: Vec<String> = (0..9).map(|i| format!("l{}\n", i)).collect();
    // Sections: l0..l5 (6 lines), l6..l8 (3 lines).
    let mut starts = vec![false; 9];
    starts[0] = true;
    starts[6] = true;
    let result = shorten_sections(lines, &starts, 3);
    assert_eq!(
        result,
        vec![
            "l0\n",
            "l1\n",
            "  [... 3 lines omitted in section ...]\n",
            "l5\n",
            "l6\n",
            "l7\n",
            "l8\n",
        ]
    );
}

#[test]
fn shorten_sections_with_one_line_keeps_only_the_top() {
    let lines: Vec<String> = (0..4).map(|i| format!("l{}\n", i)).collect();
    let starts = vec![false; 4];
    let result = shorten_sections(lines, &starts, 1);
    assert_eq!(result, vec!["l0\n", "  [... 3 lines omitted in section ...]\n"]);
}

#[test]
fn per_section_truncation_never_lengthens() {
    let mut lines: Vec<String> = Vec::new();
    for f in 0..3 {
        lines.push(format!("@@ hunk {}\n", f));
        for i in 0..(f * 4) {
            lines.push(format!("+ line {}\n", i));
        }
    }
    let n = lines.len();
    let result = truncate(lines, 0, 0, 3, r"^@@\s");
    assert!(result.len() <= n);
    assert_eq!(result[0], "@@ hunk 0\n");
    assert!(truncate(Vec::new(), 0, 0, 3, r"^@@\s").is_empty());
}

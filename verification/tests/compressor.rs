use gsqz::compressor::{apply_steps, finish_compression, CompressionResult, Compressor};
use gsqz::config::{
    Config, Fallback, FilterLinesArgs, GroupLinesArgs, Pipeline, PipelineMap, Settings, Step,
    TruncateArgs,
};

fn filter(patterns: &[&str]) -> Step {
    Step::FilterLines(FilterLinesArgs { patterns: patterns.iter().map(|p| p.to_string()).collect() })
}

fn group(mode: &str) -> Step {
    Step::GroupLines(GroupLinesArgs { mode: mode.to_string() })
}

fn truncate(head: usize, tail: usize) -> Step {
    Step::Truncate(TruncateArgs { head, tail, per_file_lines: 0, file_marker: String::new() })
}

/// A configuration with the built-in pipelines these tests exercise.
fn test_config() -> Config {
    let mut pipelines = PipelineMap::new();
    pipelines.insert(
        "git-status".to_string(),
        Pipeline {
            match_pattern: r"\bgit\s+status\b".to_string(),
            steps: vec![filter(&[r"^\s*$", r"^On branch ", r"^\s*\(use "]), group("git_status")],
        },
    );
    pipelines.insert(
        "pytest".to_string(),
        Pipeline {
            match_pattern: r"\bpytest\b".to_string(),
            steps: vec![group("pytest_failures"), truncate(40, 20)],
        },
    );
    pipelines.insert(
        "cargo-test".to_string(),
        Pipeline {
            match_pattern: r"\bcargo\s+test\b".to_string(),
            steps: vec![filter(&[r"^\s*Compiling "]), group("test_failures"), truncate(40, 20)],
        },
    );
    Config {
        settings: Settings::default(),
        pipelines,
        fallback: Fallback::default(),
        excluded_commands: vec![r"\bcat\b".to_string()],
    }
}

#[test]
fn test_passthrough_short_output() {
    let compressor = Compressor::new(&test_config());
    let result = compressor.compress("uv run pytest", "ok");
    assert_eq!(result.strategy_name, "passthrough");
    assert_eq!(result.compressed, "ok");
}

#[test]
fn test_pipeline_match() {
    let compressor = Compressor::new(&test_config());
    let output = (0..200)
        .map(|i| format!("tests/test_{}.py PASSED\n", i))
        .collect::<String>();
    let result = compressor.compress("uv run pytest tests/", &output);
    assert_eq!(result.strategy_name, "pytest");
    assert!(result.compressed_chars < result.original_chars);
}

#[test]
fn test_fallback_used_when_no_pipeline_matches() {
    let compressor = Compressor::new(&test_config());
    let output = (0..200)
        .map(|i| format!("some random line number {}\n", i))
        .collect::<String>();
    let result = compressor.compress("some-unknown-command --flag", &output);
    assert_eq!(result.strategy_name, "fallback");
}

#[test]
fn test_max_lines_cap_applied() {
    let config = test_config();
    let compressor = Compressor::new(&config);
    let output = (0..500)
        .map(|i| format!("unique line {} with distinct content abc{}\n", i, i * 37))
        .collect::<String>();
    let result = compressor.compress("some-unknown-command", &output);
    let line_count = result.compressed.lines().count();
    assert!(
        line_count <= config.settings.max_compressed_lines + 1,
        "got {} lines, max is {}",
        line_count,
        config.settings.max_compressed_lines
    );
}

#[test]
fn test_low_savings_returns_passthrough() {
    let compressor = Compressor::new(&test_config());
    let output = (0..25)
        .map(|i| format!("unique line {} {}\n", i, "x".repeat(50)))
        .collect::<String>();
    let result = compressor.compress("some-unknown-command", &output);
    assert_eq!(result.strategy_name, "passthrough");
}

#[test]
fn test_git_status_pipeline() {
    let compressor = Compressor::new(&test_config());
    let mut lines = Vec::new();
    for i in 0..100 {
        lines.push(format!(" M src/file_{}.rs\n", i));
    }
    for i in 0..50 {
        lines.push(format!("?? new_{}.txt\n", i));
    }
    let output = lines.join("");
    let result = compressor.compress("git status", &output);
    assert_eq!(result.strategy_name, "git-status");
    assert!(result.compressed.contains("Modified"));
    assert!(result.compressed.contains("Untracked"));
}

#[test]
fn test_cargo_test_pipeline() {
    let compressor = Compressor::new(&test_config());
    let mut lines: Vec<String> = (0..100)
        .map(|i| format!("test test_{} ... ok\n", i))
        .collect();
    lines.push("test result: ok. 100 passed; 0 failed\n".into());
    let output = lines.join("");
    let result = compressor.compress("cargo test", &output);
    assert_eq!(result.strategy_name, "cargo-test");
}

fn long_output(n: usize) -> String {
    (0..n).map(|i| format!("line number {} of the output\n", i)).collect()
}

#[test]
fn excluded_command_is_never_compressed() {
    let compressor = Compressor::new(&test_config());
    let output = long_output(300);
    let result = compressor.compress("cat big.log", &output);
    assert_eq!(result.strategy_name, "excluded");
    assert_eq!(result.compressed, output);
    assert_eq!(result.compressed_chars, result.original_chars);
    assert_eq!(result.original_chars, output.len());
}

#[test]
fn compression_reports_sizes_in_bytes() {
    let compressor = Compressor::new(&test_config());
    let output = long_output(300);
    let result: CompressionResult = compressor.compress("make all", &output);
    assert_eq!(result.strategy_name, "fallback");
    assert_eq!(result.original_chars, output.len());
    assert_eq!(result.compressed_chars, result.compressed.len());
    assert!(result.compressed_chars * 100 < result.original_chars * 95);
    let expected: String = (0..20)
        .map(|i| format!("line number {} of the output\n", i))
        .chain(std::iter::once("\n[... 260 lines omitted ...]\n".to_string()))
        .chain((280..300).map(|i| format!("line number {} of the output\n", i)))
        .collect();
    assert_eq!(result.compressed, expected);
}

#[test]
fn blank_result_passes_through() {
    let mut config = test_config();
    config.pipelines.insert(
        "blank".to_string(),
        Pipeline { match_pattern: "^blank$".to_string(), steps: vec![filter(&["."])] },
    );
    let compressor = Compressor::new(&config);
    let output = long_output(100);
    let result = compressor.compress("blank", &output);
    assert_eq!(result.strategy_name, "passthrough");
    assert_eq!(result.compressed, output);
}

#[test]
fn line_cap_cuts_to_three_fifths_head() {
    let mut config = test_config();
    config.settings.max_compressed_lines = 10;
    config.pipelines.insert(
        "keep".to_string(),
        Pipeline { match_pattern: "^keep$".to_string(), steps: vec![] },
    );
    let compressor = Compressor::new(&config);
    let output = long_output(100);
    let result = compressor.compress("keep", &output);
    assert_eq!(result.strategy_name, "keep");
    let expected: String = (0..6)
        .map(|i| format!("line number {} of the output\n", i))
        .chain(std::iter::once("\n[... 90 lines omitted ...]\n".to_string()))
        .chain((96..100).map(|i| format!("line number {} of the output\n", i)))
        .collect();
    assert_eq!(result.compressed, expected);
}

#[test]
fn invalid_pipeline_pattern_is_left_out() {
    let mut config = test_config();
    config.pipelines.insert(
        "aaa-broken".to_string(),
        Pipeline { match_pattern: "[".to_string(), steps: vec![] },
    );
    let compressor = Compressor::new(&config);
    let output: String = (0..100).map(|i| format!(" M src/f_{}.rs\n", i)).collect();
    let result = compressor.compress("git status", &output);
    assert_eq!(result.strategy_name, "git-status");
}

#[test]
fn finish_keeps_saving_result_under_its_strategy() {
    let output = long_output(10);
    let stepped = vec!["short\n".to_string()];
    let result = finish_compression(&output, stepped, "mine".to_string(), 0);
    assert_eq!(result.compressed, "short\n");
    assert_eq!(result.compressed_chars, 6);
    assert_eq!(result.original_chars, output.len());
    assert_eq!(result.strategy_name, "mine");
}

#[test]
fn finish_passes_through_when_saving_is_under_five_percent() {
    let output = "abcdefghijklmnopqrst".to_string();
    // 19 of 20 bytes left is a saving of exactly 5%: kept.
    let stepped = vec!["abcdefghijklmnopqrs".to_string()];
    let result = finish_compression(&output, stepped, "mine".to_string(), 0);
    assert_eq!(result.strategy_name, "mine");
    assert_eq!(result.compressed_chars, 19);
    // 96 of 100 bytes left saves only 4%: passed through.
    let output = "x".repeat(100);
    let stepped = vec!["y".repeat(96)];
    let result = finish_compression(&output, stepped, "mine".to_string(), 0);
    assert_eq!(result.strategy_name, "passthrough");
    assert_eq!(result.compressed, output);
    assert_eq!(result.compressed_chars, 100);
    // 95 of 101 bytes left saves just under 6%: kept.
    let output = "x".repeat(101);
    let stepped = vec!["y".repeat(95)];
    let result = finish_compression(&output, stepped, "mine".to_string(), 0);
    assert_eq!(result.strategy_name, "mine");
}

#[test]
fn finish_passes_through_blank_result() {
    let output = long_output(10);
    let stepped = vec!["  \n".to_string(), "\t\n".to_string()];
    let result = finish_compression(&output, stepped, "mine".to_string(), 0);
    assert_eq!(result.strategy_name, "passthrough");
    assert_eq!(result.compressed, output);
}

#[test]
fn finish_caps_lines() {
    let output = long_output(100);
    let stepped: Vec<String> = (0..20).map(|i| format!("l{}\n", i)).collect();
    let result = finish_compression(&output, stepped, "mine".to_string(), 5);
    assert_eq!(result.compressed, "l0\nl1\nl2\n\n[... 15 lines omitted ...]\nl18\nl19\n");
}

#[test]
fn steps_apply_in_order() {
    let lines: Vec<String> = vec!["a\n", "\n", "a\n", "b\n", "b\n", "c\n"]
        .into_iter()
        .map(|s| s.to_string())
        .collect();
    let steps = vec![filter(&[r"^\s*$"]), Step::Dedup(gsqz::config::DedupArgs {}), truncate(1, 1)];
    let out = apply_steps(lines, &steps);
    assert_eq!(out, vec!["a\n", "\n[... 3 lines omitted ...]\n", "c\n"]);
}

#[test]
fn first_matching_pipeline_in_name_order_wins() {
    let mut config = test_config();
    config.pipelines.insert(
        "b-second".to_string(),
        Pipeline { match_pattern: r"\btool\b".to_string(), steps: vec![truncate(2, 2)] },
    );
    config.pipelines.insert(
        "a-first".to_string(),
        Pipeline { match_pattern: r"^my".to_string(), steps: vec![truncate(3, 3)] },
    );
    let compressor = Compressor::new(&config);
    let output = long_output(200);
    let result = compressor.compress("my tool run", &output);
    assert_eq!(result.strategy_name, "a-first");
    assert_eq!(result.compressed.lines().count(), 3 + 2 + 3);
    let result = compressor.compress("other tool run", &output);
    assert_eq!(result.strategy_name, "b-second");
}

fn drop_config(min_output_length: usize) -> Config {
    let mut pipelines = PipelineMap::new();
    pipelines.insert("p".to_string(), Pipeline { match_pattern: "^x$".to_string(), steps: vec![filter(&["^drop"])] });
    Config {
        settings: Settings { min_output_length, max_compressed_lines: 0, daemon_url: None },
        pipelines,
        fallback: Fallback::default(),
        excluded_commands: vec![],
    }
}

#[test]
fn exactly_five_percent_saving_is_kept() {
    let compressor = Compressor::new(&drop_config(0));
    let output = format!("drop\n{}\n", "k".repeat(94));
    assert_eq!(output.len(), 100);
    let result = compressor.compress("x", &output);
    assert_eq!(result.strategy_name, "p");
    assert_eq!(result.compressed, format!("{}\n", "k".repeat(94)));
    assert_eq!(result.compressed_chars, 95);
    assert_eq!(result.original_chars, 100);
}

#[test]
fn min_output_length_counts_characters() {
    let compressor = Compressor::new(&drop_config(10));
    // 8 characters in 12 bytes: under the limit of 10 characters.
    let output = "drop\n日本\n";
    assert_eq!(output.len(), 12);
    let result = compressor.compress("x", output);
    assert_eq!(result.strategy_name, "passthrough");
    assert_eq!(result.compressed, output);
    assert_eq!(result.original_chars, 12);
    // 10 characters: compressed.
    let output = "drop\n日本語日\n";
    let result = compressor.compress("x", output);
    assert_eq!(result.strategy_name, "p");
    assert_eq!(result.compressed, "日本語日\n");
}

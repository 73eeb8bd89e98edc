use gsqz::config::{
    merge_overlay, Config, DedupArgs, Fallback, Pipeline, PipelineMap, Settings, Step,
    TruncateArgs,
};

#[test]
fn test_settings_default_values() {
    let settings = Settings::default();
    assert_eq!(settings.min_output_length, 1000);
    assert_eq!(settings.max_compressed_lines, 100);
    assert!(settings.daemon_url.is_none());
}

#[test]
fn test_fallback_default() {
    let fallback = Fallback::default();
    assert_eq!(fallback.steps.len(), 1);
    match &fallback.steps[0] {
        Step::Truncate(args) => {
            assert_eq!(args.head, 20);
            assert_eq!(args.tail, 20);
        }
        _ => panic!("expected Truncate as default fallback"),
    }
}

fn pipeline(pattern: &str, steps: Vec<Step>) -> Pipeline {
    Pipeline { match_pattern: pattern.to_string(), steps }
}

fn truncate_step(head: usize, tail: usize) -> Step {
    Step::Truncate(TruncateArgs { head, tail, per_file_lines: 0, file_marker: String::new() })
}

fn base_config() -> Config {
    let mut pipelines = PipelineMap::new();
    pipelines.insert(
        "git-status".to_string(),
        pipeline(r"^git\s+status", vec![Step::Dedup(DedupArgs {}), truncate_step(20, 10)]),
    );
    pipelines.insert("pytest".to_string(), pipeline(r"\bpytest\b", vec![truncate_step(3, 3)]));
    Config {
        settings: Settings::default(),
        pipelines,
        fallback: Fallback::default(),
        excluded_commands: vec![r"\bcat\b".to_string()],
    }
}

#[test]
fn test_merge_overlay_replaces_pipeline() {
    let mut base = base_config();
    let original_step_count = base.pipelines.get("git-status").map(|p| p.steps.len()).unwrap_or(0);
    let mut overlay_pipelines = PipelineMap::new();
    overlay_pipelines.insert("git-status".to_string(), pipeline(r"^git\s+status", vec![truncate_step(5, 5)]));
    let overlay = Config {
        settings: Settings::default(),
        pipelines: overlay_pipelines,
        fallback: Fallback::default(),
        excluded_commands: vec![],
    };
    merge_overlay(&mut base, overlay);
    let new_step_count = base.pipelines.get("git-status").unwrap().steps.len();
    assert_eq!(new_step_count, 1);
    assert_ne!(new_step_count, original_step_count);
    assert!(base.pipelines.contains_key("pytest"));
}

#[test]
fn test_merge_overlay_adds_new_pipeline() {
    let mut base = base_config();
    assert!(!base.pipelines.contains_key("custom-tool"));
    let mut overlay_pipelines = PipelineMap::new();
    overlay_pipelines.insert("custom-tool".to_string(), pipeline("^my-tool", vec![Step::Dedup(DedupArgs {})]));
    for (name, p) in overlay_pipelines.into_entries() {
        base.pipelines.insert(name, p);
    }
    assert!(base.pipelines.contains_key("custom-tool"));
}

#[test]
fn merge_overlay_adds_pipeline_and_settings() {
    let mut base = base_config();
    assert!(!base.pipelines.contains_key("custom-tool"));
    let mut overlay_pipelines = PipelineMap::new();
    overlay_pipelines.insert("custom-tool".to_string(), pipeline("^my-tool", vec![Step::Dedup(DedupArgs {})]));
    let overlay = Config {
        settings: Settings {
            min_output_length: 500,
            max_compressed_lines: 100,
            daemon_url: Some("http://localhost:1".to_string()),
        },
        pipelines: overlay_pipelines,
        fallback: Fallback { steps: vec![] },
        excluded_commands: vec![r"\becho\b".to_string()],
    };
    merge_overlay(&mut base, overlay);
    assert!(base.pipelines.contains_key("custom-tool"));
    assert_eq!(base.pipelines.len(), 3);
    assert_eq!(base.settings.min_output_length, 500);
    assert_eq!(base.settings.max_compressed_lines, 100);
    assert_eq!(base.settings.daemon_url.as_deref(), Some("http://localhost:1"));
    assert_eq!(base.excluded_commands, vec![r"\bcat\b".to_string(), r"\becho\b".to_string()]);
    // The fallback is not merged.
    assert_eq!(base.fallback.steps.len(), 1);
}

#[test]
fn merge_overlay_default_settings_do_not_override() {
    let mut base = base_config();
    base.settings.min_output_length = 42;
    let overlay = Config {
        settings: Settings::default(),
        pipelines: PipelineMap::new(),
        fallback: Fallback::default(),
        excluded_commands: vec![],
    };
    merge_overlay(&mut base, overlay);
    assert_eq!(base.settings.min_output_length, 42);
    assert_eq!(base.pipelines.len(), 2);
}

#[test]
fn pipeline_map_keeps_names_sorted_and_unique() {
    let mut m = PipelineMap::new();
    m.insert("zeta".to_string(), pipeline("z", vec![]));
    m.insert("alpha".to_string(), pipeline("a", vec![]));
    m.insert("mid".to_string(), pipeline("m", vec![]));
    m.insert("alpha".to_string(), pipeline("a2", vec![]));
    assert_eq!(m.len(), 3);
    assert_eq!(m.name_at(0), "alpha");
    assert_eq!(m.name_at(1), "mid");
    assert_eq!(m.name_at(2), "zeta");
    assert_eq!(m.get("alpha").unwrap().match_pattern, "a2");
    assert!(m.get("beta").is_none());
}

#[test]
fn test_config_dump_contains_settings() {
    let config = base_config();
    let dump = config.dump();
    assert!(dump.contains("min_output_length: 1000"));
    assert!(dump.contains("max_compressed_lines: 100"));
    assert!(dump.contains("pipelines:"));
}

#[test]
fn config_dump_exact_text() {
    let mut config = base_config();
    config.settings.daemon_url = Some("http://d".to_string());
    let dump = config.dump();
    assert_eq!(
        dump,
        "settings:\n  min_output_length: 1000\n  max_compressed_lines: 100\n  daemon_url: \"http://d\"\n\npipelines: 2 total\n  git-status: match='^git\\s+status', 2 steps\n  pytest: match='\\bpytest\\b', 1 steps\n\nexcluded_commands: [\"\\\\bcat\\\\b\"]\n"
    );
}

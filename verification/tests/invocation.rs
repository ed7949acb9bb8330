use glyphhunt::config::{grid, Harness};
use glyphhunt::runner::{harness_args, harness_env, keeps_entry};

#[test]
fn stream_json_harness_gets_prompt_and_model_up_front() {
    let cfg = grid()[0];
    let a = harness_args(&cfg, "find the word");
    assert_eq!(
        a,
        vec![
            "-p",
            "find the word",
            "--model",
            "opus",
            "--output-format",
            "stream-json",
            "--verbose",
            "--dangerously-skip-permissions",
        ]
    );
}

#[test]
fn effort_is_passed_as_a_config_override_before_the_prompt() {
    let cfg = grid()[2];
    let a = harness_args(&cfg, "P");
    assert_eq!(
        a,
        vec![
            "exec",
            "--json",
            "-m",
            "gpt-5.6-sol",
            "--skip-git-repo-check",
            "--dangerously-bypass-approvals-and-sandbox",
            "-c",
            "model_reasoning_effort=high",
            "P",
        ]
    );
}

#[test]
fn no_effort_means_no_override() {
    let mut cfg = grid()[5];
    cfg.effort = None;
    let a = harness_args(&cfg, "P");
    assert_eq!(a.len(), 7);
    assert!(!a.iter().any(|x| x == "-c"));
    assert_eq!(a.last().map(|x| x.as_str()), Some("P"));
}

#[test]
fn profile_environment_only_for_the_json_harness() {
    assert!(harness_env(Harness::Claude, "/Users/me").is_empty());
    let e = harness_env(Harness::Codex, "/Users/me");
    assert_eq!(
        e,
        vec![
            ("CODEX_HOME".to_string(), "/Users/me/.codex-p".to_string()),
            ("CMUX_CODEX_HOOKS_DISABLED".to_string(), "1".to_string()),
        ]
    );
}

#[test]
fn cleanup_keeps_only_the_evidence() {
    assert!(keeps_entry("answer.json"));
    assert!(keeps_entry("events.jsonl"));
    assert!(keeps_entry("stderr.log"));
    assert!(!keeps_entry("clip.mp4"));
    assert!(!keeps_entry("frames"));
    assert!(!keeps_entry("answer.json.bak"));
    assert!(!keeps_entry(""));
}

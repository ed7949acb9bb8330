use glyphhunt::report::{hint_line, HintLine};
use glyphhunt::record::{finished_record, RunContext};
use glyphhunt::runner::RunOutput;
use glyphhunt::score::Score;
use glyphhunt::config::{grid, PromptMode};
use glyphhunt::jobs::{
    build_jobs, model_selected, parse_level_list, parse_mode_list, run_id, select_models,
    video_file_name,
};
use glyphhunt::record::Outcome;
use glyphhunt::report::{agg_of, latency_row, BehaviorView, Row, ScoreView, UsageView};
use glyphhunt::tui::{active_index, Active};

fn row(model: &str, outcome: Outcome, parsed: bool, exact: bool, chars: usize) -> Row {
    Row {
        model: model.into(),
        level: 1,
        mode: "Blind".into(),
        pass: "accuracy".into(),
        outcome,
        wall_ms: 1000,
        concurrent_runs: 1,
        score: ScoreView { parsed, word_exact: exact, chars_correct: chars, frames_correct: 1, spatial_correct: 0, positions: vec![], word_normalized: String::new() },
        behavior: BehaviorView { shell_commands: 3, ffmpeg_invocations: 1, images_read: 2, python_invocations: 0, used_frame_diff: exact, used_contrast_stretch: false, used_crop: false, turns: 4 },
        usage: UsageView { output_tokens: 10, reasoning_tokens: 0 },
    }
}

#[test]
fn effective_outcome_judges_on_parsing() {
    assert_eq!(row("m", Outcome::TimedOut, true, false, 0).effective(), Outcome::Scored);
    assert_eq!(row("m", Outcome::TimedOut, false, false, 0).effective(), Outcome::TimedOut);
    assert_eq!(row("m", Outcome::Cheated, true, true, 17).effective(), Outcome::Cheated);
    assert_eq!(row("m", Outcome::Crashed, false, false, 0).effective(), Outcome::Crashed);
    assert!(row("m", Outcome::TimedOut, true, false, 0).hit_wall());
    assert!(!row("m", Outcome::Scored, true, false, 0).hit_wall());
}

#[test]
fn tallies_of_a_group() {
    let rows = vec![
        row("a", Outcome::Scored, true, true, 17),
        row("a", Outcome::TimedOut, true, false, 5),
        row("a", Outcome::Unparseable, false, false, 0),
    ];
    let a = agg_of(&rows);
    assert_eq!(a.runs, 3);
    assert_eq!(a.exact, 1);
    assert_eq!(a.chars, 22);
    assert_eq!(a.frames, 3);
    assert_eq!(a.wall, 3000);
    assert_eq!(a.out_tok, 30);
    assert_eq!(a.shell, 9);
    assert_eq!(a.imgs, 6);
    assert_eq!(a.diffs, 1);
    assert_eq!(a.fails, 1);
    assert_eq!(a.walls, 1);
    let e = agg_of(&vec![]);
    assert_eq!(e.runs, 0);
    assert_eq!(e.chars, 0);
}

#[test]
fn level_and_mode_lists() {
    assert_eq!(parse_level_list("1,2,3"), vec![1, 2, 3]);
    assert_eq!(parse_level_list(" 3 , x,4,+2,,0"), vec![3, 2]);
    assert_eq!(parse_level_list(""), Vec::<u8>::new());
    assert_eq!(parse_mode_list("blind,hinted"), vec![PromptMode::Blind, PromptMode::Hinted]);
    assert_eq!(parse_mode_list(" hinted ,Blind,blind"), vec![PromptMode::Hinted, PromptMode::Blind]);
}

#[test]
fn only_list_selects_models() {
    assert!(model_selected(None, "opus-5"));
    assert!(model_selected(Some("fable-5, opus-5"), "opus-5"));
    assert!(!model_selected(Some("opus"), "opus-5"));
    let picked = select_models(&grid(), Some("gpt-5.5/med,opus-5"));
    let labels: Vec<&str> = picked.iter().map(|m| m.label).collect();
    assert_eq!(labels, vec!["opus-5", "gpt-5.5/med"]);
    assert_eq!(select_models(&grid(), None).len(), 6);
}

#[test]
fn jobs_are_ordered_trial_level_mode_model() {
    let models = select_models(&grid(), Some("opus-5,fable-5"));
    let jobs = build_jobs(2, &vec![1, 3], &vec![PromptMode::Blind, PromptMode::Hinted], &models);
    assert_eq!(jobs.len(), 16);
    let key = |j: &(glyphhunt::config::ModelCfg, u8, PromptMode, u32)| (j.0.label, j.1, j.2, j.3);
    assert_eq!(key(&jobs[0]), ("opus-5", 1, PromptMode::Blind, 1));
    assert_eq!(key(&jobs[1]), ("fable-5", 1, PromptMode::Blind, 1));
    assert_eq!(key(&jobs[2]), ("opus-5", 1, PromptMode::Hinted, 1));
    assert_eq!(key(&jobs[4]), ("opus-5", 3, PromptMode::Blind, 1));
    assert_eq!(key(&jobs[15]), ("fable-5", 3, PromptMode::Hinted, 2));
    assert!(build_jobs(0, &vec![1], &vec![PromptMode::Blind], &models).is_empty());
}

#[test]
fn run_names() {
    assert_eq!(run_id("gpt-5.6/high", 3, PromptMode::Hinted, 2, "134501123"), "gpt-5_6_high-L3-hint-t2-134501123");
    assert_eq!(video_file_name(2), "level2.mp4");
}

#[test]
fn finished_runs_leave_the_in_flight_list() {
    let now = std::time::Instant::now();
    let active = vec![
        Active { label: "opus-5".into(), level: 1, mode: "blind", started: now },
        Active { label: "opus-5".into(), level: 2, mode: "blind", started: now },
        Active { label: "opus-5".into(), level: 2, mode: "blind", started: now },
    ];
    assert_eq!(active_index(&active, "opus-5", 2, "blind"), Some(1));
    assert_eq!(active_index(&active, "opus-5", 2, "hint"), None);
}

use glyphhunt::order::{sort_texts, str_lt};
use glyphhunt::report::{distinct_levels, distinct_models, font_tally, PositionView};
use glyphhunt::runner::finish_listing;
use glyphhunt::tui::{distinct_record_models, tally_records};

#[test]
fn distinct_models_and_levels_are_sorted() {
    let mut rows = vec![row("gpt-5.5/med", Outcome::Scored, true, true, 1), row("fable-5", Outcome::Scored, true, true, 1), row("gpt-5.5/med", Outcome::Scored, true, true, 1)];
    rows[1].level = 3;
    assert_eq!(distinct_models(&rows), vec!["fable-5".to_string(), "gpt-5.5/med".to_string()]);
    assert_eq!(distinct_levels(&rows), vec![1u8, 3]);
    assert!(distinct_models(&vec![]).is_empty());
}

#[test]
fn text_order_is_lexicographic() {
    assert!(str_lt("a", "b"));
    assert!(str_lt("ab", "abc"));
    assert!(!str_lt("abc", "ab"));
    assert!(!str_lt("x", "x"));
    assert!(str_lt("Z", "a"));
    assert!(str_lt("z", "é"));
    let v: Vec<String> = ["b", "a", "c", "a"].iter().map(|s| s.to_string()).collect();
    assert_eq!(sort_texts(v), vec!["a", "a", "b", "c"]);
}

#[test]
fn listing_is_sorted_and_capped() {
    let entries: Vec<String> = (0..250).rev().map(|i| format!("f{:03}", i)).collect();
    let kept = finish_listing(entries);
    assert_eq!(kept.len(), 200);
    assert_eq!(kept[0], "f000");
    assert_eq!(kept[199], "f199");
    let few = finish_listing(vec!["stderr.log".into(), "answer.json".into(), "clip.mp4".into()]);
    assert_eq!(few, vec!["answer.json", "clip.mp4", "stderr.log"]);
}

fn pos(index: usize, font: &str, ok: bool) -> PositionView {
    PositionView { index, font: font.into(), char_ok: ok }
}

#[test]
fn typeface_tally_counts_per_glyph_and_font() {
    let mut a = row("a", Outcome::Scored, true, false, 1);
    a.score.positions = vec![pos(0, "Serif", true), pos(1, "Mono", false)];
    let mut b = row("b", Outcome::Scored, true, false, 1);
    b.score.positions = vec![pos(0, "Serif", false), pos(1, "Mono", false), pos(1, "Sans", true)];
    let t = font_tally(&vec![a, b]);
    let find = |i: usize, f: &str| t.iter().find(|e| e.index == i && e.font == f).map(|e| (e.ok, e.total));
    assert_eq!(t.len(), 3);
    assert_eq!(find(0, "Serif"), Some((1, 2)));
    assert_eq!(find(1, "Mono"), Some((0, 2)));
    assert_eq!(find(1, "Sans"), Some((1, 1)));
}

#[test]
fn leaderboard_tallies() {
    let ctx = |label: &'static str| RunContext {
        run_id: "id".into(),
        cfg: glyphhunt::config::ModelCfg { label, harness: glyphhunt::config::Harness::Codex, model: "m", effort: Some("high") },
        level: 2,
        mode: PromptMode::Hinted,
        trial: 1,
        pass: "accuracy".into(),
        seed: 1,
        started_at: "t".into(),
        concurrent_runs: 1,
    };
    let mut s1 = Score::empty(17);
    s1.chars_correct = 9;
    s1.word_exact = false;
    let mut s2 = Score::empty(17);
    s2.chars_correct = 17;
    s2.word_exact = true;
    let mut o1 = RunOutput::new();
    o1.wall_ms = 1500;
    let mut o2 = RunOutput::new();
    o2.wall_ms = 500;
    o2.timed_out = true;
    let recs = vec![finished_record(&ctx("y"), o1, true, s1), finished_record(&ctx("x"), o2, true, s2)];
    let t = tally_records(&recs);
    assert_eq!(t.runs, 2);
    assert_eq!(t.exact, 1);
    assert_eq!(t.chars, 26);
    assert_eq!(t.wall_ms, 2000);
    assert_eq!(t.best_chars, 17);
    assert_eq!(t.failures, 1);
    assert_eq!(recs[0].effort.as_deref(), Some("high"));
    assert_eq!(distinct_record_models(&recs), vec!["x".to_string(), "y".to_string()]);
}

#[test]
fn only_the_sequential_pass_reports_latency() {
    let mut r = row("m", Outcome::Scored, true, true, 17);
    assert!(!latency_row(&r));
    r.pass = "latency".into();
    assert!(latency_row(&r));
    r.pass = "Latency".into();
    assert!(!latency_row(&r));
}

#[test]
fn typeface_tally_comes_in_glyph_then_font_order() {
    let mut a = row("a", Outcome::Scored, true, false, 1);
    a.score.positions = vec![pos(2, "b", true), pos(1, "Zed", false), pos(1, "Abc", true), pos(0, "z", true)];
    let mut b = row("b", Outcome::Scored, true, false, 1);
    b.score.positions = vec![pos(1, "Abc", false), pos(2, "a", true), pos(1, "Zed", true)];
    let t = font_tally(&vec![a, b]);
    let keys: Vec<(usize, &str)> = t.iter().map(|e| (e.index, e.font.as_str())).collect();
    assert_eq!(keys, vec![(0, "z"), (1, "Abc"), (1, "Zed"), (2, "a"), (2, "b")]);
    assert_eq!((t[1].ok, t[1].total), (1, 2));
}

#[test]
fn hint_line_needs_both_modes() {
    assert_eq!(hint_line(0, 0), HintLine::Skip);
    assert_eq!(hint_line(3, 0), HintLine::Partial);
    assert_eq!(hint_line(0, 1), HintLine::Partial);
    assert_eq!(hint_line(2, 5), HintLine::Delta);
}

use glyphhunt::score::first_with_content;
use glyphhunt::config::{grid, Harness, PromptMode};
use glyphhunt::record::{
    classify_outcome, failed_record, finished_record, message_tail, Outcome, RunContext,
};
use glyphhunt::runner::{scan_command, RunOutput};
use glyphhunt::score::{score_level, json_candidates, normalize, score, Answer, AnswerLetter, Score};
use glyphhunt::truth::{GroundTruth, LevelTruth, TargetGlyph, TruthError};

fn glyph(index: usize, c: &str, frame: i64) -> TargetGlyph {
    TargetGlyph { index, char: c.to_string(), font: format!("Font{}", index), frame, x: 0, y: 0, w: 10, h: 10 }
}

fn truth(word: &str) -> (GroundTruth, LevelTruth) {
    let targets: Vec<TargetGlyph> = word
        .chars()
        .enumerate()
        .map(|(i, c)| glyph(i, &c.to_string(), 100 * (i as i64 + 1)))
        .collect();
    let lvl = LevelTruth { video: "level1.mp4".into(), description: "d".into(), targets };
    let gt = GroundTruth { target: word.to_string(), seed: 7, frames: 1800, levels: vec![("1".to_string(), lvl.clone())] };
    (gt, lvl)
}

fn letter(c: &str, frame: Option<i64>) -> AnswerLetter {
    AnswerLetter { c: c.to_string(), frame }
}

#[test]
fn normalize_lowercases_and_strips() {
    assert_eq!(normalize("Theo Loves \"Obsidian\""), "theolovesobsidian");
    assert_eq!(normalize("  T-H-E-O 42 "), "theo");
    assert_eq!(normalize(""), "");
    // U+0130 lowercases to 'i' followed by a combining dot
    assert_eq!(normalize("\u{130}x"), "ix");
}

#[test]
fn normalize_is_idempotent() {
    for s in ["Theo Loves \"Obsidian\"", "\u{130}x \u{3a3}A", "", "theo", "ABC-def 123"] {
        let once = normalize(s);
        assert_eq!(normalize(&once), once);
    }
    assert_eq!(normalize("HeLLo, World!"), "helloworld");
}

#[test]
fn unparsed_answer_scores_nothing() {
    let (gt, lvl) = truth("theo");
    let sc = score(None, &gt, &lvl, &vec![]);
    assert!(!sc.parsed);
    assert_eq!(sc.chars_total, 4);
    assert_eq!(sc.chars_correct, 0);
    assert!(sc.positions.is_empty());
}

#[test]
fn exact_answer_from_letters() {
    let (gt, lvl) = truth("theo");
    let ans = Answer {
        word: "wrong".into(),
        letters: vec![letter("T", Some(100)), letter("h", Some(202)), letter("e", Some(303)), letter("o", None)],
    };
    let sc = score(Some(&ans), &gt, &lvl, &vec![true, true, true, true]);
    assert!(sc.parsed);
    assert!(sc.word_exact);
    assert_eq!(sc.word_normalized, "theo");
    assert_eq!(sc.levenshtein_distance, 0);
    assert_eq!(sc.levenshtein_max_len, 4);
    assert_eq!(sc.chars_correct, 4);
    assert_eq!(sc.first_error_index, None);
    // frame 303 is 3 away from 300: outside the tolerance of 2
    assert_eq!(sc.frames_correct, 2);
    assert_eq!(sc.spatial_correct, 2);
    assert_eq!(sc.positions[2].frame_delta, Some(3));
    assert!(!sc.positions[2].frame_ok);
    assert!(!sc.positions[2].spatial_ok);
    assert_eq!(sc.positions[3].frame_delta, None);
    assert_eq!(sc.positions[0].font, "Font0");
    assert_eq!(sc.positions[1].expected, "h");
    assert_eq!(sc.positions[1].got, Some("h".to_string()));
}

#[test]
fn word_is_used_when_letters_have_the_wrong_length() {
    let (gt, lvl) = truth("kitten");
    let ans = Answer { word: "Sitting".into(), letters: vec![letter("s", Some(100))] };
    let sc = score(Some(&ans), &gt, &lvl, &vec![false]);
    assert_eq!(sc.word_normalized, "sitting");
    assert!(!sc.word_exact);
    assert_eq!(sc.levenshtein_distance, 3);
    assert_eq!(sc.levenshtein_max_len, 7);
    assert_eq!(sc.chars_correct, 0);
    assert_eq!(sc.first_error_index, Some(0));
    assert_eq!(sc.frames_correct, 1);
    assert_eq!(sc.spatial_correct, 0);
    assert_eq!(sc.positions.len(), 6);
    assert_eq!(sc.positions[5].got, None);
}

#[test]
fn empty_word_falls_back_to_letters() {
    let (gt, lvl) = truth("ab");
    let ans = Answer { word: "!!".into(), letters: vec![letter("a", None), letter("b", None), letter("c", None)] };
    let sc = score(Some(&ans), &gt, &lvl, &vec![]);
    assert_eq!(sc.word_normalized, "abc");
    assert_eq!(sc.chars_correct, 2);
    assert_eq!(sc.levenshtein_distance, 1);
    assert_eq!(sc.levenshtein_max_len, 3);
}

#[test]
fn first_error_is_the_first_wrong_position() {
    let (gt, lvl) = truth("abcd");
    let ans = Answer { word: String::new(), letters: vec![letter("a", None), letter("x", None), letter("c", None), letter("", None)] };
    let sc = score(Some(&ans), &gt, &lvl, &vec![]);
    assert_eq!(sc.chars_correct, 2);
    assert_eq!(sc.first_error_index, Some(1));
    assert!(!sc.positions[3].char_ok);
}

#[test]
fn chars_total_counts_bytes() {
    let (gt, lvl) = truth("é");
    let sc = score(None, &gt, &lvl, &vec![]);
    assert_eq!(sc.chars_total, 2);
}

#[test]
fn missing_target_gives_no_frame_credit() {
    let (gt, mut lvl) = truth("ab");
    lvl.targets.remove(0);
    let ans = Answer { word: "ab".into(), letters: vec![letter("a", Some(100)), letter("b", Some(200))] };
    let sc = score(Some(&ans), &gt, &lvl, &vec![true, true]);
    assert_eq!(sc.positions[0].font, "");
    assert_eq!(sc.positions[0].frame_delta, None);
    assert_eq!(sc.frames_correct, 1);
    assert_eq!(sc.spatial_correct, 1);
}

#[test]
fn level_lookup() {
    let (mut gt, lvl) = truth("ab");
    gt.levels.push(("12".to_string(), lvl.clone()));
    assert_eq!(gt.level(1).unwrap().video, "level1.mp4");
    assert_eq!(gt.level(12).unwrap().targets.len(), 2);
    assert_eq!(gt.level(2).unwrap_err(), TruthError::NoLevel(2));
    assert_eq!(lvl.target_for(1).unwrap().char, "b");
    assert!(lvl.target_for(5).is_none());
}

#[test]
fn json_candidates_newest_first() {
    let c = json_candidates("x {\"a\": {\"b\": 1}} y } {\"c\": 2");
    assert_eq!(c, vec!["{\"a\": {\"b\": 1}}".to_string(), "{\"b\": 1}".to_string()]);
    assert!(json_candidates("no braces").is_empty());
    let c = json_candidates("{1}{2}");
    assert_eq!(c, vec!["{2}".to_string(), "{1}".to_string()]);
}

#[test]
fn answer_content() {
    assert!(!Answer { word: String::new(), letters: vec![] }.has_content());
    assert!(Answer { word: "a".into(), letters: vec![] }.has_content());
    assert!(Answer { word: String::new(), letters: vec![letter("", None)] }.has_content());
}

#[test]
fn outcome_precedence() {
    assert_eq!(classify_outcome(true, true, Some(1), false), Outcome::Cheated);
    assert_eq!(classify_outcome(false, true, Some(1), true), Outcome::TimedOut);
    assert_eq!(classify_outcome(false, false, Some(2), true), Outcome::Crashed);
    assert_eq!(classify_outcome(false, false, Some(0), false), Outcome::Unparseable);
    assert_eq!(classify_outcome(false, false, None, true), Outcome::Scored);
}

#[test]
fn tail_keeps_the_last_600_chars() {
    let long: String = "ab".repeat(400);
    let t = message_tail(&long);
    assert_eq!(t.chars().count(), 600);
    assert!(long.ends_with(&t));
    assert_eq!(message_tail("short"), "short");
}

fn ctx() -> RunContext {
    RunContext {
        run_id: "opus-5-L1-blind-t1-000000000".into(),
        cfg: grid()[0],
        level: 1,
        mode: PromptMode::Blind,
        trial: 1,
        pass: "accuracy".into(),
        seed: 7,
        started_at: "2025-01-01T00:00:00Z".into(),
        concurrent_runs: 3,
    }
}

#[test]
fn cheating_zeroes_the_score() {
    let (gt, lvl) = truth("ab");
    let ans = Answer { word: "ab".into(), letters: vec![] };
    let sc = score(Some(&ans), &gt, &lvl, &vec![]);
    assert!(sc.word_exact);
    let mut out = RunOutput::new();
    scan_command("cat ../ground_truth.json", &mut out.behavior);
    let r = finished_record(&ctx(), out, true, sc);
    assert!(r.integrity_violation);
    assert_eq!(r.outcome, Outcome::Cheated);
    assert!(!r.score.word_exact);
    assert_eq!(r.score.chars_total, 0);
    assert_eq!(r.model, "opus-5");
    assert_eq!(r.harness, Harness::Claude);
}

#[test]
fn honest_run_keeps_its_score() {
    let (gt, lvl) = truth("ab");
    let ans = Answer { word: "ab".into(), letters: vec![] };
    let sc = score(Some(&ans), &gt, &lvl, &vec![]);
    let mut out = RunOutput::new();
    out.final_message = "x".repeat(700);
    out.exit_code = Some(0);
    let r = finished_record(&ctx(), out, true, sc);
    assert!(!r.integrity_violation);
    assert_eq!(r.outcome, Outcome::Scored);
    assert!(r.score.word_exact);
    assert_eq!(r.final_message_tail.len(), 600);
    assert_eq!(r.cell(), "opus-5|L1|blind|t1");
}

#[test]
fn harness_failure_is_a_crash() {
    let r = failed_record(&ctx(), 12, "harness error: spawning CLI".to_string());
    assert_eq!(r.outcome, Outcome::Crashed);
    assert_eq!(r.wall_ms, 12);
    assert_eq!(r.raw_answer.as_deref(), Some("harness error: spawning CLI"));
    assert_eq!(r.final_message_tail, "harness error: spawning CLI");
    assert_eq!(r.score.chars_total, 0);
    assert_eq!(r.effort, None);
}

#[test]
fn default_score_is_empty() {
    let s = Score::default();
    assert!(!s.parsed);
    assert_eq!(s.chars_total, 0);
}

#[test]
fn score_on_a_missing_level_is_empty() {
    let (gt, _) = truth("ab");
    let ans = Answer { word: "ab".into(), letters: vec![] };
    let sc = score_level(Some(&ans), &gt, 1, &vec![]);
    assert!(sc.word_exact);
    let sc = score_level(Some(&ans), &gt, 3, &vec![]);
    assert!(!sc.parsed);
    assert_eq!(sc.chars_total, 0);
}

#[test]
fn first_candidate_with_content_wins() {
    let empty = Answer { word: String::new(), letters: vec![] };
    let worded = Answer { word: "theo".into(), letters: vec![] };
    let lettered = Answer { word: String::new(), letters: vec![letter("t", None)] };
    assert_eq!(first_with_content(&vec![]), None);
    assert_eq!(first_with_content(&vec![None, Some(empty.clone())]), None);
    assert_eq!(first_with_content(&vec![None, Some(empty.clone()), Some(lettered), Some(worded.clone())]), Some(2));
    assert_eq!(first_with_content(&vec![Some(worded), None]), Some(0));
}

#[test]
fn level_is_found_by_its_numeral() {
    let (mut gt, lvl) = truth("ab");
    gt.levels.push(("3".to_string(), LevelTruth { video: "level3.mp4".into(), description: "x".into(), targets: vec![] }));
    assert_eq!(gt.level(1).map(|l| l.video.clone()), Ok("level1.mp4".to_string()));
    assert_eq!(gt.level(3).map(|l| l.video.clone()), Ok("level3.mp4".to_string()));
    assert!(gt.level(2).is_err());
    assert_eq!(lvl.targets.len(), 2);
}

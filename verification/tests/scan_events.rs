use glyphhunt::runner::scan_lowered;
use glyphhunt::events::has_image_suffix;
use glyphhunt::events::{
    parse_claude_event, parse_codex_event, ClaudeContent, ClaudeEvent, ClaudeUsage, CodexEvent,
    CodexItem, CodexUsage,
};
use glyphhunt::runner::{
    bump_tool, is_stalled, record_answer, record_end, scan_command, Behavior, RunOutput,
};

fn s(x: &str) -> Option<String> {
    Some(x.to_string())
}

fn tally(b: &Behavior, name: &str) -> u32 {
    b.tool_breakdown.iter().find(|(k, _)| k == name).map(|(_, c)| *c).unwrap_or(0)
}

#[test]
fn shell_command_is_counted_and_classified() {
    let mut b = Behavior::default();
    scan_command("FFmpeg -i clip.mp4 -vf \"fps=2,crop=100:100:0:0\" out%03d.png", &mut b);
    assert_eq!(b.shell_commands, 1);
    assert_eq!(b.ffmpeg_invocations, 1);
    assert_eq!(b.python_invocations, 0);
    assert!(b.used_crop);
    assert!(!b.used_scale);
    assert!(!b.used_frame_diff);
    assert_eq!(b.chosen_fps, vec!["2".to_string()]);
    assert!(b.integrity_violations.is_empty());
}

#[test]
fn frame_differencing_and_contrast_are_noticed() {
    let mut b = Behavior::default();
    scan_command("python3 -c 'import numpy; np.diff(a)'", &mut b);
    scan_command("ffmpeg -vf tblend=all_mode=difference,eq=contrast=5 x.png", &mut b);
    assert_eq!(b.shell_commands, 2);
    assert_eq!(b.python_invocations, 1);
    assert_eq!(b.ffmpeg_invocations, 1);
    assert!(b.used_frame_diff);
    assert!(b.used_contrast_stretch);
}

#[test]
fn scale_is_noticed_both_ways() {
    let mut b = Behavior::default();
    scan_command("ffmpeg -vf scale 640:-1", &mut b);
    assert!(b.used_scale);
    let mut b = Behavior::default();
    scan_command("ffmpeg -vf SCALE=640:-1", &mut b);
    assert!(b.used_scale);
}

#[test]
fn fps_tokens_need_a_value() {
    let mut b = Behavior::default();
    scan_command("ffmpeg -vf fps= select fps=0.5 xfps=3 fps=1/2", &mut b);
    assert_eq!(b.chosen_fps, vec!["0.5".to_string(), "1".to_string()]);
}

#[test]
fn rate_option_is_recorded() {
    let mut b = Behavior::default();
    scan_command("ffmpeg -i clip.mp4 -r 2 f%03d.png", &mut b);
    assert_eq!(b.chosen_fps, vec!["2".to_string()]);
}

#[test]
fn rate_options_come_after_fps_filters() {
    let mut b = Behavior::default();
    scan_command("ffmpeg -r  5 -i x.mp4 -vf fps=0.5 -R 30000/1001 out.png", &mut b);
    assert_eq!(b.chosen_fps, vec!["0.5".to_string(), "5".to_string(), "30000".to_string()]);
    // `-r` must stand alone, and needs a value.
    let mut b = Behavior::default();
    scan_command("ffmpeg x-r 5 -rate 3 -r\t7 -r", &mut b);
    assert_eq!(b.chosen_fps, vec!["7".to_string()]);
}

#[test]
fn largest_frame_count_is_recorded() {
    let mut b = Behavior::default();
    scan_command("ffmpeg -i clip.mp4 -frames:v 30 f%03d.png", &mut b);
    assert_eq!(b.max_frames_extracted, 30);
    scan_command("ffmpeg -i clip.mp4 -vframes 12 g%03d.png", &mut b);
    assert_eq!(b.max_frames_extracted, 30);
    scan_command("ffmpeg -ss 3 -i clip.mp4 -FRAMES 90 -frames:v 40 h.png", &mut b);
    assert_eq!(b.max_frames_extracted, 90);
    scan_command("ffmpeg -frames:v x -frames 99999999999999999999 a.png", &mut b);
    assert_eq!(b.max_frames_extracted, 90);
}

#[test]
fn fps_list_is_capped() {
    let mut b = Behavior::default();
    let cmd: String = (0..30).map(|i| format!("fps={} ", i)).collect();
    scan_command(&cmd, &mut b);
    assert_eq!(b.chosen_fps.len(), 24);
    assert_eq!(b.chosen_fps[23], "23");
}

#[test]
fn integrity_marker_is_recorded_with_a_snippet() {
    let mut b = Behavior::default();
    let cmd = format!("cat ../../../GlyphHunt/generator/main.py {}", "x".repeat(400));
    scan_command(&cmd, &mut b);
    assert_eq!(b.integrity_violations.len(), 1);
    let v = &b.integrity_violations[0];
    assert!(v.starts_with("[glyphhunt] cat ../../../GlyphHunt/"));
    assert_eq!(v.chars().count(), "[glyphhunt] ".len() + 240);
}

#[test]
fn first_marker_wins_and_violations_are_capped() {
    let mut b = Behavior::default();
    scan_command("ls developer/t3 ground_truth.json", &mut b);
    assert_eq!(b.integrity_violations, vec!["[ground_truth] ls developer/t3 ground_truth.json".to_string()]);
    for _ in 0..30 {
        scan_command("cat base_montage.mp4", &mut b);
    }
    assert_eq!(b.integrity_violations.len(), 20);
    assert_eq!(b.shell_commands, 31);
}

#[test]
fn unicode_lowercasing_reaches_markers() {
    let mut b = Behavior::default();
    // U+212A KELVIN SIGN lowercases to an ASCII 'k'
    scan_command("echo \u{212A}", &mut b);
    assert!(b.integrity_violations.is_empty());
    let mut b = Behavior::default();
    scan_command("cat GROUND_TRUTH", &mut b);
    assert_eq!(b.integrity_violations.len(), 1);
}

#[test]
fn tool_tally_counts_per_name() {
    let mut t: Vec<(String, u32)> = Vec::new();
    bump_tool(&mut t, "Bash");
    bump_tool(&mut t, "Read");
    bump_tool(&mut t, "Bash");
    assert_eq!(t, vec![("Bash".to_string(), 2), ("Read".to_string(), 1)]);
}

fn tool_use(name: Option<&str>, command: Option<&str>, path: Option<&str>) -> ClaudeContent {
    ClaudeContent {
        kind: s("tool_use"),
        name: name.map(|x| x.to_string()),
        command: command.map(|x| x.to_string()),
        file_path: path.map(|x| x.to_string()),
        text: None,
    }
}

#[test]
fn claude_assistant_message() {
    let mut out = RunOutput::new();
    let ev = ClaudeEvent {
        kind: s("assistant"),
        content: Some(vec![
            tool_use(Some("Bash"), Some("ffmpeg -i clip.mp4 f%d.png"), None),
            tool_use(Some("Read"), None, Some("/tmp/run/Frame_001.PNG")),
            tool_use(Some("Read"), None, Some("/tmp/run/notes.txt")),
            tool_use(None, None, None),
            ClaudeContent { kind: s("text"), name: None, command: None, file_path: None, text: s("thinking") },
        ]),
        duration_api_ms: None,
        num_turns: None,
        usage: None,
        result: None,
    };
    parse_claude_event(&ev, &mut out);
    let b = &out.behavior;
    assert_eq!(b.tool_calls, 4);
    assert_eq!(tally(b, "Bash"), 1);
    assert_eq!(tally(b, "Read"), 2);
    assert_eq!(tally(b, "?"), 1);
    assert_eq!(b.shell_commands, 1);
    assert_eq!(b.ffmpeg_invocations, 1);
    assert_eq!(b.images_read, 1);
    assert_eq!(out.final_message, "thinking");
}

#[test]
fn claude_result_event() {
    let mut out = RunOutput::new();
    out.usage.input_tokens = 99;
    let ev = ClaudeEvent {
        kind: s("result"),
        content: None,
        duration_api_ms: Some(1234),
        num_turns: Some(7),
        usage: Some(ClaudeUsage { input_tokens: Some(10), cache_read_input_tokens: None, output_tokens: Some(5) }),
        result: s("{\"word\":\"x\"}"),
    };
    parse_claude_event(&ev, &mut out);
    assert_eq!(out.usage.api_duration_ms, Some(1234));
    assert_eq!(out.behavior.turns, 7);
    assert_eq!(out.usage.input_tokens, 10);
    assert_eq!(out.usage.cached_input_tokens, 0);
    assert_eq!(out.usage.output_tokens, 5);
    assert_eq!(out.final_message, "{\"word\":\"x\"}");
    let empty = ClaudeEvent { result: s(""), usage: None, num_turns: Some((1u64 << 32) + 3), ..ev.clone() };
    parse_claude_event(&empty, &mut out);
    assert_eq!(out.final_message, "{\"word\":\"x\"}");
    assert_eq!(out.behavior.turns, 3);
    assert_eq!(out.usage.input_tokens, 10);
}

#[test]
fn claude_other_events_change_nothing() {
    let mut out = RunOutput::new();
    let ev = ClaudeEvent { kind: s("system"), content: None, duration_api_ms: Some(5), num_turns: Some(3), usage: None, result: s("r") };
    parse_claude_event(&ev, &mut out);
    assert_eq!(out.behavior.turns, 0);
    assert_eq!(out.usage.api_duration_ms, None);
    assert_eq!(out.final_message, "");
}

fn codex(kind: &str, item: Option<CodexItem>) -> CodexEvent {
    CodexEvent { kind: s(kind), item, message: None, error_message: None, usage: None }
}

fn item(kind: Option<&str>, command: Option<&str>, text: Option<&str>) -> CodexItem {
    CodexItem { kind: kind.map(|x| x.to_string()), command: command.map(|x| x.to_string()), text: text.map(|x| x.to_string()) }
}

#[test]
fn codex_items_count_once_at_completion() {
    let mut out = RunOutput::new();
    parse_codex_event(&codex("item.started", Some(item(Some("command_execution"), Some("ffmpeg"), None))), &mut out);
    assert_eq!(out.behavior.tool_calls, 0);
    parse_codex_event(&codex("item.completed", Some(item(Some("command_execution"), Some("ffmpeg -r 1"), None))), &mut out);
    parse_codex_event(&codex("item.completed", Some(item(Some("reasoning"), None, None))), &mut out);
    parse_codex_event(&codex("item.completed", Some(item(Some("view_image"), None, None))), &mut out);
    parse_codex_event(&codex("item.completed", Some(item(None, None, None))), &mut out);
    parse_codex_event(&codex("item.completed", Some(item(Some("agent_message"), None, Some("done")))), &mut out);
    let b = &out.behavior;
    assert_eq!(b.tool_calls, 2);
    assert_eq!(tally(b, "shell"), 1);
    assert_eq!(tally(b, "view_image"), 1);
    assert_eq!(tally(b, "reasoning"), 0);
    assert_eq!(b.shell_commands, 1);
    assert_eq!(b.images_read, 1);
    assert_eq!(out.final_message, "done");
}

#[test]
fn codex_errors_become_the_final_message() {
    let mut out = RunOutput::new();
    let mut ev = codex("error", None);
    ev.error_message = s("quota exceeded");
    parse_codex_event(&ev, &mut out);
    assert_eq!(out.final_message, "quota exceeded");
    ev.kind = s("turn.failed");
    ev.message = s("usage limit");
    parse_codex_event(&ev, &mut out);
    assert_eq!(out.final_message, "usage limit");
}

#[test]
fn codex_turns_add_up_usage() {
    let mut out = RunOutput::new();
    let mut ev = codex("turn.completed", None);
    ev.usage = Some(CodexUsage { input_tokens: Some(100), cached_input_tokens: Some(40), output_tokens: None, reasoning_output_tokens: Some(7) });
    parse_codex_event(&ev, &mut out);
    parse_codex_event(&ev, &mut out);
    assert_eq!(out.behavior.turns, 2);
    assert_eq!(out.usage.input_tokens, 200);
    assert_eq!(out.usage.cached_input_tokens, 80);
    assert_eq!(out.usage.output_tokens, 0);
    assert_eq!(out.usage.reasoning_tokens, 14);
}

#[test]
fn watchdog_kills_after_ten_quiet_minutes() {
    assert!(!is_stalled(599, 0));
    assert!(is_stalled(600, 0));
    assert!(is_stalled(1000, 400));
    assert!(!is_stalled(5, 10));
}

#[test]
fn answer_file_is_preferred_over_final_message() {
    let mut out = RunOutput::new();
    out.final_message = "msg".to_string();
    record_answer(&mut out, Some("{}".to_string()));
    assert!(out.answer_json_present);
    assert_eq!(out.raw_answer, Some("{}".to_string()));
    let mut out = RunOutput::new();
    out.final_message = "msg".to_string();
    record_answer(&mut out, None);
    assert!(!out.answer_json_present);
    assert_eq!(out.raw_answer, Some("msg".to_string()));
    let mut out = RunOutput::new();
    record_answer(&mut out, None);
    assert_eq!(out.raw_answer, None);
}

#[test]
fn a_stalled_run_counts_as_timed_out() {
    let mut out = RunOutput::new();
    record_end(&mut out, None, false, true, 42);
    assert!(out.timed_out);
    assert!(out.stalled);
    assert_eq!(out.wall_ms, 42);
}

#[test]
fn lowered_text_is_classified_as_given() {
    let lower: Vec<char> = "ffmpeg -i clip.mp4 -frames:v 30 -r 4 f%03d.png".chars().collect();
    let mut b = Behavior::default();
    // The original text only shows in violation records.
    scan_lowered(&lower, "anything", &mut b);
    assert_eq!(b.shell_commands, 1);
    assert_eq!(b.ffmpeg_invocations, 1);
    assert_eq!(b.max_frames_extracted, 30);
    assert_eq!(b.chosen_fps, vec!["4".to_string()]);
}

#[test]
fn image_suffixes_of_lowercase_paths() {
    let cv = |s: &str| -> Vec<char> { s.chars().collect() };
    assert!(has_image_suffix(&cv("frames/f001.png")));
    assert!(has_image_suffix(&cv("a.jpeg")));
    assert!(has_image_suffix(&cv("a.webp")));
    assert!(!has_image_suffix(&cv("a.PNG")));
    assert!(!has_image_suffix(&cv("a.png.txt")));
}

#[test]
fn tool_tally_stays_in_name_order() {
    let mut t: Vec<(String, u32)> = Vec::new();
    bump_tool(&mut t, "shell");
    bump_tool(&mut t, "Read");
    bump_tool(&mut t, "view_image");
    bump_tool(&mut t, "Bash");
    bump_tool(&mut t, "shell");
    assert_eq!(
        t,
        vec![
            ("Bash".to_string(), 1),
            ("Read".to_string(), 1),
            ("shell".to_string(), 2),
            ("view_image".to_string(), 1),
        ]
    );
}

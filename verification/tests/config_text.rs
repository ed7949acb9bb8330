use glyphhunt::config::{grid, integrity_markers, levels, modes, Harness, PromptMode};
use glyphhunt::text::{
    contains_chars, keep_ascii_lowercase, parse_u8, push_decimal, same_chars, split_chars,
    str_eq, trim_chars,
};

fn cv(s: &str) -> Vec<char> {
    s.chars().collect()
}

#[test]
fn grid_has_six_models_in_leaderboard_order() {
    let g = grid();
    let labels: Vec<&str> = g.iter().map(|m| m.label).collect();
    assert_eq!(
        labels,
        vec!["opus-5", "fable-5", "gpt-5.6/high", "gpt-5.6/med", "gpt-5.5/high", "gpt-5.5/med"]
    );
    assert_eq!(g[0].harness, Harness::Claude);
    assert_eq!(g[2].harness, Harness::Codex);
    assert_eq!(g[2].model, "gpt-5.6-sol");
    assert_eq!(g[3].effort, Some("medium"));
    assert_eq!(g[1].effort, None);
}

#[test]
fn levels_and_modes() {
    assert_eq!(levels(), vec![1u8, 2, 3]);
    assert_eq!(modes(), vec![PromptMode::Blind, PromptMode::Hinted]);
}

#[test]
fn prompt_mode_names() {
    assert_eq!(PromptMode::Blind.file(), "blind.txt");
    assert_eq!(PromptMode::Hinted.file(), "hinted.txt");
    assert_eq!(PromptMode::Blind.short(), "blind");
    assert_eq!(PromptMode::Hinted.short(), "hint");
}

#[test]
fn markers_name_the_project_tree() {
    assert_eq!(
        integrity_markers(),
        vec!["glyphhunt", "ground_truth", "base_montage", "developer/t3"]
    );
}

#[test]
fn keep_ascii_lowercase_drops_everything_else() {
    assert_eq!(keep_ascii_lowercase("Theo loves 0bsidian!"), "heolovesbsidian");
    assert_eq!(keep_ascii_lowercase(""), "");
    assert_eq!(keep_ascii_lowercase("ÉéABC"), "");
}

#[test]
fn keep_ascii_lowercase_is_idempotent_on_an_example() {
    let once = keep_ascii_lowercase("a-B c_d");
    assert_eq!(keep_ascii_lowercase(&once), once);
}

#[test]
fn substring_search() {
    assert!(contains_chars(&cv("ffmpeg -i clip.mp4"), &cv("ffmpeg")));
    assert!(contains_chars(&cv("abc"), &cv("")));
    assert!(!contains_chars(&cv("ab"), &cv("abc")));
    assert!(contains_chars(&cv("xxabc"), &cv("abc")));
    assert!(!contains_chars(&cv("abxc"), &cv("abc")));
}

#[test]
fn trim_removes_unicode_whitespace() {
    assert_eq!(trim_chars(&cv("  2 \t")), cv("2"));
    assert_eq!(trim_chars(&cv("\u{a0}hinted\u{3000}")), cv("hinted"));
    assert_eq!(trim_chars(&cv("   ")), cv(""));
    assert_eq!(trim_chars(&cv("a b")), cv("a b"));
}

#[test]
fn parse_u8_follows_std() {
    for s in ["0", "7", "+7", "007", "255", "256", "-1", "", "+", "1a", " 1", "999999999999"] {
        assert_eq!(parse_u8(&cv(s)), s.parse::<u8>().ok(), "input {:?}", s);
    }
}

#[test]
fn split_keeps_empty_pieces() {
    let p = split_chars(&cv("1,,2,"), ',');
    assert_eq!(p, vec![cv("1"), cv(""), cv("2"), cv("")]);
    assert_eq!(split_chars(&cv(""), ','), vec![cv("")]);
}

#[test]
fn decimal_numerals() {
    let mut v = Vec::new();
    push_decimal(&mut v, 0);
    assert_eq!(v, cv("0"));
    let mut v = cv("x");
    push_decimal(&mut v, 1800);
    assert_eq!(v, cv("x1800"));
    let mut v = Vec::new();
    push_decimal(&mut v, u64::MAX);
    assert_eq!(v, cv(&u64::MAX.to_string()));
}

#[test]
fn text_equality() {
    assert!(str_eq("Bash", "Bash"));
    assert!(!str_eq("Bash", "bash"));
    assert!(same_chars(&cv(""), &cv("")));
    assert!(!same_chars(&cv("a"), &cv("ab")));
}

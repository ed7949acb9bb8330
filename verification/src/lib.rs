//! glyphhunt: the verified core of a benchmark that asks coding agents to find
//! a word hidden, one glyph at a time, inside a video.

pub mod config;
pub mod text;
pub mod runner;
pub mod events;
pub mod truth;
pub mod score;
pub mod record;
pub mod report;
pub mod jobs;
pub mod tui;
pub mod order;
pub mod rank;

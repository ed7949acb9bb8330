//! The benchmark grid: which models, at which effort, on which levels.

use vstd::prelude::*;

verus! {

/// The command-line agent that drives a model.
#[derive(Debug, Clone, Copy, PartialEq, Eq, Structural)]
pub enum Harness {
    Claude,
    Codex,
}

/// One model configuration of the grid.
#[derive(Debug, Clone, Copy)]
pub struct ModelCfg {
    /// Short name used in the leaderboard.
    pub label: &'static str,
    pub harness: Harness,
    /// Value passed to `--model`.
    pub model: &'static str,
    /// Codex only: `model_reasoning_effort`. The other harness has no
    /// equivalent flag.
    pub effort: Option<&'static str>,
}

/// The grid of model configurations, in leaderboard order.
///
/// `gpt-5.6` and `gpt-5.5-codex` are not available on this account, so the
/// 5.6 line is `gpt-5.6-sol`.
pub fn grid() -> (g: Vec<ModelCfg>)
    ensures
        g@.len() == 6,
        g@[0] == (ModelCfg { label: "opus-5", harness: Harness::Claude, model: "opus", effort: None }),
        g@[1] == (ModelCfg { label: "fable-5", harness: Harness::Claude, model: "fable", effort: None }),
        g@[2] == (ModelCfg { label: "gpt-5.6/high", harness: Harness::Codex, model: "gpt-5.6-sol", effort: Some("high") }),
        g@[3] == (ModelCfg { label: "gpt-5.6/med", harness: Harness::Codex, model: "gpt-5.6-sol", effort: Some("medium") }),
        g@[4] == (ModelCfg { label: "gpt-5.5/high", harness: Harness::Codex, model: "gpt-5.5", effort: Some("high") }),
        g@[5] == (ModelCfg { label: "gpt-5.5/med", harness: Harness::Codex, model: "gpt-5.5", effort: Some("medium") }),
{
    let mut g: Vec<ModelCfg> = Vec::new();
    g.push(ModelCfg { label: "opus-5", harness: Harness::Claude, model: "opus", effort: None });
    g.push(ModelCfg { label: "fable-5", harness: Harness::Claude, model: "fable", effort: None });
    g.push(ModelCfg { label: "gpt-5.6/high", harness: Harness::Codex, model: "gpt-5.6-sol", effort: Some("high") });
    g.push(ModelCfg { label: "gpt-5.6/med", harness: Harness::Codex, model: "gpt-5.6-sol", effort: Some("medium") });
    g.push(ModelCfg { label: "gpt-5.5/high", harness: Harness::Codex, model: "gpt-5.5", effort: Some("high") });
    g.push(ModelCfg { label: "gpt-5.5/med", harness: Harness::Codex, model: "gpt-5.5", effort: Some("medium") });
    g
}

/// The difficulty levels of the benchmark.
pub fn levels() -> (l: Vec<u8>)
    ensures
        l@ == seq![1u8, 2u8, 3u8],
{
    let mut l: Vec<u8> = Vec::new();
    l.push(1);
    l.push(2);
    l.push(3);
    l
}

/// Whether `lvl` is one of the benchmark's levels.
pub open spec fn is_level(lvl: u8) -> bool {
    1 <= lvl <= 3
}

/// How much the prompt tells the model.
#[derive(Debug, Clone, Copy, PartialEq, Eq, Structural)]
pub enum PromptMode {
    Blind,
    Hinted,
}

impl PromptMode {
    /// The prompt file of this mode.
    pub fn file(&self) -> (f: &'static str)
        ensures
            *self == PromptMode::Blind ==> f == "blind.txt",
            *self == PromptMode::Hinted ==> f == "hinted.txt",
    {
        match self {
            PromptMode::Blind => "blind.txt",
            PromptMode::Hinted => "hinted.txt",
        }
    }

    /// The short name of this mode, used in run ids and tables.
    pub fn short(&self) -> (s: &'static str)
        ensures
            s@ == self.spec_short(),
    {
        proof {
            reveal_strlit("blind");
            reveal_strlit("hint");
        }
        match self {
            PromptMode::Blind => "blind",
            PromptMode::Hinted => "hint",
        }
    }

    /// What `short` returns.
    pub open spec fn spec_short(self) -> Seq<char> {
        match self {
            PromptMode::Blind => seq!['b', 'l', 'i', 'n', 'd'],
            PromptMode::Hinted => seq!['h', 'i', 'n', 't'],
        }
    }
}

/// Both prompt modes, blind first.
pub fn modes() -> (m: Vec<PromptMode>)
    ensures
        m@ == seq![PromptMode::Blind, PromptMode::Hinted],
{
    let mut m: Vec<PromptMode> = Vec::new();
    m.push(PromptMode::Blind);
    m.push(PromptMode::Hinted);
    m
}

/// Codex runs use the personal profile per project convention.
pub const CODEX_HOME_SUFFIX: &'static str = ".codex-p";

/// Agentic video work is slow; anything past this is a hang, not a think.
pub const RUN_TIMEOUT_SECS: u64 = 1800;

/// Kill a run that has emitted no event for this long.
///
/// Silence is different from slowness: a working agent emits an event on every
/// shell command, so a long gap means it is stuck, not thinking. Ten minutes
/// rather than five, because a high-effort model can reason for several
/// minutes before its first command.
pub const IDLE_TIMEOUT_SECS: u64 = 600;

/// Run directories live outside the project tree, under a neutral name.
pub const RUN_ROOT: &'static str = "/private/tmp/vidtask";

/// Markers that name something that exists only in the project tree.
///
/// The project lives at `.../Developer/t3/test/glyphhunt`, so any genuine
/// reference to it contains both `developer/t3` and `glyphhunt`.
pub fn integrity_markers() -> (m: Vec<&'static str>)
    ensures
        m@.len() == 4,
        m@.map_values(|s: &'static str| s@) == spec_integrity_markers(),
{
    proof {
        reveal_strlit("glyphhunt");
        reveal_strlit("ground_truth");
        reveal_strlit("base_montage");
        reveal_strlit("developer/t3");
    }
    let mut m: Vec<&'static str> = Vec::new();
    m.push("glyphhunt");
    m.push("ground_truth");
    m.push("base_montage");
    m.push("developer/t3");
    assert("glyphhunt"@ =~= spec_integrity_markers()[0]);
    assert("ground_truth"@ =~= spec_integrity_markers()[1]);
    assert("base_montage"@ =~= spec_integrity_markers()[2]);
    assert("developer/t3"@ =~= spec_integrity_markers()[3]);
    assert(m@.map_values(|s: &'static str| s@) =~= spec_integrity_markers());
    m
}

/// The integrity markers as character sequences, in the order they are tried.
pub open spec fn spec_integrity_markers() -> Seq<Seq<char>> {
    seq![
        seq!['g', 'l', 'y', 'p', 'h', 'h', 'u', 'n', 't'],
        seq!['g', 'r', 'o', 'u', 'n', 'd', '_', 't', 'r', 'u', 't', 'h'],
        seq!['b', 'a', 's', 'e', '_', 'm', 'o', 'n', 't', 'a', 'g', 'e'],
        seq!['d', 'e', 'v', 'e', 'l', 'o', 'p', 'e', 'r', '/', 't', '3'],
    ]
}

} // verus!

//! One row per run, appended to the results file.

use vstd::prelude::*;
use crate::config::{Harness, ModelCfg, PromptMode};
use crate::runner::{texts, Behavior, BehaviorState, RunOutput, RunOutputState, Usage, opt_text};
use crate::score::{empty_score, Score, ScoreState};
use crate::text::{append_chars, chars_of, decimal, push_decimal, string_of};

verus! {

/// How a run ended.
#[derive(Debug, Clone, Copy, PartialEq, Eq, Structural)]
pub enum Outcome {
    /// Answer parsed and scored.
    Scored,
    /// Process finished but produced nothing we could read as an answer.
    Unparseable,
    /// Hit the wall-clock limit.
    TimedOut,
    /// Non-zero exit.
    Crashed,
    /// The agent reached the benchmark's own source; the score is zeroed.
    Cheated,
}

/// One row of the results file. (The machine load sampled during the run is
/// a real number and is kept beside the row, outside this library.)
#[derive(Debug, Clone)]
pub struct RunRecord {
    pub run_id: String,
    pub model: String,
    pub harness: Harness,
    pub model_id: String,
    pub effort: Option<String>,
    pub level: u8,
    pub mode: PromptMode,
    pub trial: u32,
    /// Which measurement pass this belongs to: latency numbers are only
    /// trustworthy from the sequential pass.
    pub pass: String,
    pub seed: u64,
    pub started_at: String,
    pub outcome: Outcome,
    /// The agent left its working directory; see `Outcome::Cheated`.
    pub integrity_violation: bool,
    pub exit_code: Option<i32>,
    pub wall_ms: u128,
    pub concurrent_runs: usize,
    pub score: Score,
    pub behavior: Behavior,
    pub usage: Usage,
    pub raw_answer: Option<String>,
    pub answer_json_present: bool,
    pub final_message_tail: String,
    pub workdir_listing: Vec<String>,
}

/// The key of a record's cell of the grid: model, level, mode and trial.
pub open spec fn cell_text(model: Seq<char>, level: u8, mode: PromptMode, trial: u32) -> Seq<char> {
    model + seq!['|', 'L'] + decimal(level as nat) + seq!['|'] + mode.spec_short() + seq!['|', 't']
        + decimal(trial as nat)
}

impl RunRecord {
    /// The cell of the grid this run belongs to, e.g. `opus-5|L3|hint|t2`.
    pub fn cell(&self) -> (c: String)
        ensures
            c@ == cell_text(self.model@, self.level, self.mode, self.trial),
    {
        let mut v: Vec<char> = chars_of(self.model.as_str());
        v.push('|');
        v.push('L');
        push_decimal(&mut v, self.level as u64);
        v.push('|');
        append_chars(&mut v, self.mode.short());
        v.push('|');
        v.push('t');
        push_decimal(&mut v, self.trial as u64);
        assert(v@ =~= cell_text(self.model@, self.level, self.mode, self.trial));
        string_of(&v)
    }
}

/// How a finished run is classified. An integrity violation outranks
/// everything; then the wall-clock limit; then a non-zero exit; then whether
/// an answer parsed.
pub open spec fn spec_outcome(cheated: bool, timed_out: bool, exit_code: Option<i32>, parsed: bool) -> Outcome {
    if cheated {
        Outcome::Cheated
    } else if timed_out {
        Outcome::TimedOut
    } else if (match exit_code {
        Some(c) => c != 0,
        None => false,
    }) {
        Outcome::Crashed
    } else if !parsed {
        Outcome::Unparseable
    } else {
        Outcome::Scored
    }
}

/// Classifies a finished run.
pub fn classify_outcome(cheated: bool, timed_out: bool, exit_code: Option<i32>, parsed: bool) -> (o: Outcome)
    ensures
        o == spec_outcome(cheated, timed_out, exit_code, parsed),
{
    if cheated {
        Outcome::Cheated
    } else if timed_out {
        Outcome::TimedOut
    } else if (match exit_code {
        Some(c) => c != 0,
        None => false,
    }) {
        Outcome::Crashed
    } else if !parsed {
        Outcome::Unparseable
    } else {
        Outcome::Scored
    }
}

/// A message keeps at most this many of its last characters in the record.
pub const TAIL_CHARS: usize = 600;

/// The last (at most) `TAIL_CHARS` characters of `msg`.
pub open spec fn tail_of(msg: Seq<char>) -> Seq<char> {
    if msg.len() > TAIL_CHARS {
        msg.skip(msg.len() - TAIL_CHARS)
    } else {
        msg
    }
}

/// The end of a final message, as kept in the record.
pub fn message_tail(msg: &str) -> (t: String)
    ensures
        t@ == tail_of(msg@),
{
    let c = chars_of(msg);
    let start: usize = if c.len() > TAIL_CHARS { c.len() - TAIL_CHARS } else { 0 };
    let mut out: Vec<char> = Vec::new();
    let mut i: usize = start;
    while i < c.len()
        invariant
            start <= i <= c@.len(),
            out@ == c@.subrange(start as int, i as int),
        decreases c@.len() - i,
    {
        out.push(c[i]);
        assert(c@.subrange(start as int, i + 1) =~= c@.subrange(start as int, i as int).push(c@[i as int]));
        i += 1;
    }
    assert(out@ =~= tail_of(msg@));
    string_of(&out)
}

/// Where and how a run was made: everything a record holds besides what the
/// run itself produced.
#[derive(Debug, Clone)]
pub struct RunContext {
    pub run_id: String,
    pub cfg: ModelCfg,
    pub level: u8,
    pub mode: PromptMode,
    pub trial: u32,
    pub pass: String,
    pub seed: u64,
    pub started_at: String,
    pub concurrent_runs: usize,
}

/// The record carries the context it was made in.
pub open spec fn record_has_context(r: RunRecord, ctx: RunContext) -> bool {
    &&& r.run_id@ == ctx.run_id@
    &&& r.model@ == ctx.cfg.label@
    &&& r.harness == ctx.cfg.harness
    &&& r.model_id@ == ctx.cfg.model@
    &&& opt_text(r.effort) == (match ctx.cfg.effort {
        Some(e) => Some(e@),
        None => None::<Seq<char>>,
    })
    &&& r.level == ctx.level
    &&& r.mode == ctx.mode
    &&& r.trial == ctx.trial
    &&& r.pass@ == ctx.pass@
    &&& r.seed == ctx.seed
    &&& r.started_at@ == ctx.started_at@
    &&& r.concurrent_runs == ctx.concurrent_runs
}

/// Copies the context into the fields of a record.
fn context_fields(ctx: &RunContext) -> (r: (String, String, String, Option<String>, String, String))
    ensures
        r.0@ == ctx.run_id@,
        r.1@ == ctx.cfg.label@,
        r.2@ == ctx.cfg.model@,
        opt_text(r.3) == (match ctx.cfg.effort {
            Some(e) => Some(e@),
            None => None::<Seq<char>>,
        }),
        r.4@ == ctx.pass@,
        r.5@ == ctx.started_at@,
{
    let effort: Option<String> = match ctx.cfg.effort {
        Some(e) => Some(String::from_str(e)),
        None => None,
    };
    (
        ctx.run_id.clone(),
        String::from_str(ctx.cfg.label),
        String::from_str(ctx.cfg.model),
        effort,
        ctx.pass.clone(),
        ctx.started_at.clone(),
    )
}

/// The record of a run whose harness could not even be driven: it crashed,
/// with `msg` as both its raw answer and its final message.
pub fn failed_record(ctx: &RunContext, wall_ms: u128, msg: String) -> (r: RunRecord)
    ensures
        record_has_context(r, *ctx),
        r.outcome == Outcome::Crashed,
        !r.integrity_violation,
        r.exit_code is None,
        r.wall_ms == wall_ms,
        r.score@ == empty_score(0),
        r.behavior@ == crate::runner::empty_behavior(),
        r.usage == Usage::default_value(),
        opt_text(r.raw_answer) == Some(msg@),
        !r.answer_json_present,
        r.final_message_tail@ == msg@,
        r.workdir_listing@.len() == 0,
{
    let (run_id, model, model_id, effort, pass, started_at) = context_fields(ctx);
    RunRecord {
        run_id,
        model,
        harness: ctx.cfg.harness,
        model_id,
        effort,
        level: ctx.level,
        mode: ctx.mode,
        trial: ctx.trial,
        pass,
        seed: ctx.seed,
        started_at,
        outcome: Outcome::Crashed,
        integrity_violation: false,
        exit_code: None,
        wall_ms,
        concurrent_runs: ctx.concurrent_runs,
        score: Score::default(),
        behavior: Behavior::default(),
        usage: Usage::default(),
        raw_answer: Some(msg.clone()),
        answer_json_present: false,
        final_message_tail: msg,
        workdir_listing: Vec::new(),
    }
}

/// The record of a run that finished: `parsed` says whether an answer could
/// be read from it, `sc` is that answer's score. A run whose behaviour shows
/// an integrity violation is recorded as cheated and its score is zeroed
/// outright, rather than trusting a reader to filter on the flag later.
pub fn finished_record(ctx: &RunContext, o: RunOutput, parsed: bool, sc: Score) -> (r: RunRecord)
    ensures
        record_has_context(r, *ctx),
        r.integrity_violation == (o@.behavior.integrity_violations.len() > 0),
        r.outcome == spec_outcome(r.integrity_violation, o@.timed_out, o@.exit_code, parsed),
        r.score@ == (if r.integrity_violation {
            empty_score(0)
        } else {
            sc@
        }),
        r.exit_code == o@.exit_code,
        r.wall_ms == o@.wall_ms,
        r.behavior@ == o@.behavior,
        r.usage == o@.usage,
        opt_text(r.raw_answer) == o@.raw_answer,
        r.answer_json_present == o@.answer_json_present,
        r.final_message_tail@ == tail_of(o@.final_message),
        texts(r.workdir_listing@) == o@.workdir_listing,
{
    let (run_id, model, model_id, effort, pass, started_at) = context_fields(ctx);
    let cheated = o.behavior.integrity_violations.len() > 0;
    let outcome = classify_outcome(cheated, o.timed_out, o.exit_code, parsed);
    let score = if cheated {
        Score::default()
    } else {
        sc
    };
    let tail = message_tail(o.final_message.as_str());
    RunRecord {
        run_id,
        model,
        harness: ctx.cfg.harness,
        model_id,
        effort,
        level: ctx.level,
        mode: ctx.mode,
        trial: ctx.trial,
        pass,
        seed: ctx.seed,
        started_at,
        outcome,
        integrity_violation: cheated,
        exit_code: o.exit_code,
        wall_ms: o.wall_ms,
        concurrent_runs: ctx.concurrent_runs,
        score,
        behavior: o.behavior,
        usage: o.usage,
        raw_answer: o.raw_answer,
        answer_json_present: o.answer_json_present,
        final_message_tail: tail,
        workdir_listing: o.workdir_listing,
    }
}

/// How a finished run is classified: a run that named the project tree is
/// `Cheated`, whatever else happened; otherwise a run that hit the wall-clock
/// limit is `TimedOut`; otherwise a non-zero exit is `Crashed`; otherwise a
/// run without a parsed answer is `Unparseable`; and only the rest is
/// `Scored`.
pub proof fn law_outcome(cheated: bool, timed_out: bool, exit_code: Option<i32>, parsed: bool)
    ensures
        cheated ==> spec_outcome(cheated, timed_out, exit_code, parsed) == Outcome::Cheated,
        !cheated && timed_out ==> spec_outcome(cheated, timed_out, exit_code, parsed) == Outcome::TimedOut,
        !cheated && !timed_out && (exit_code matches Some(c) && c != 0) ==> spec_outcome(
            cheated,
            timed_out,
            exit_code,
            parsed,
        ) == Outcome::Crashed,
        !cheated && !timed_out && !(exit_code matches Some(c) && c != 0) && !parsed ==> spec_outcome(
            cheated,
            timed_out,
            exit_code,
            parsed,
        ) == Outcome::Unparseable,
        (spec_outcome(cheated, timed_out, exit_code, parsed) == Outcome::Scored) == (!cheated && !timed_out
            && !(exit_code matches Some(c) && c != 0) && parsed),
{
}

/// A run that named the project tree is recorded as `Cheated` with nothing
/// scored: no parsed answer, no exact word, no right character, frame or
/// place, and no positions.
pub proof fn law_cheated_scores_nothing(r: RunRecord, o: RunOutputState, parsed: bool, sc: ScoreState)
    requires
        r.integrity_violation == (o.behavior.integrity_violations.len() > 0),
        r.outcome == spec_outcome(r.integrity_violation, o.timed_out, o.exit_code, parsed),
        r.score@ == (if r.integrity_violation {
            empty_score(0)
        } else {
            sc
        }),
        o.behavior.integrity_violations.len() > 0,
    ensures
        r.outcome == Outcome::Cheated,
        !r.score@.parsed,
        !r.score@.word_exact,
        r.score@.chars_correct == 0,
        r.score@.frames_correct == 0,
        r.score@.spatial_correct == 0,
        r.score@.positions.len() == 0,
{
}

/// The kept end of a message is its last 600 characters, or all of it when
/// it is shorter.
pub proof fn law_tail(msg: Seq<char>)
    ensures
        tail_of(msg).len() == (if msg.len() > 600 { 600 } else { msg.len() }),
        msg == msg.take(msg.len() - tail_of(msg).len()) + tail_of(msg),
{
    assert(msg =~= msg.take(msg.len() - tail_of(msg).len()) + tail_of(msg));
}

} // verus!

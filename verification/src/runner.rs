//! What an agent did during one run, mined from its event stream.
//!
//! Each run gets its own working directory containing nothing but `clip.mp4`
//! and the prompt; the process plumbing lives outside this library, which
//! holds the decisions: how a shell command is classified, how each event of
//! either harness changes the run's record, and when a quiet run is stuck.

use vstd::prelude::*;
use crate::config::{spec_integrity_markers, Harness, ModelCfg, CODEX_HOME_SUFFIX, IDLE_TIMEOUT_SECS};
use crate::config::integrity_markers;
use crate::order::{lemma_lex_irreflexive, lemma_lex_total, lemma_lex_transitive, lex_lt, sort_texts, sorted, str_lt};
use crate::text::{all_digits, append_chars, chars_of, contains_chars, digits_value, is_whitespace, str_eq, white_space, has_prefix, has_substring, is_ascii_alnum, lowercase, starts_with_chars, string_of, to_lowercase};

verus! {

/// A per-tool call count: each tool name once, in increasing order of names
/// (the order of a sorted map).
pub open spec fn tally_view(t: Seq<(String, u32)>) -> Seq<(Seq<char>, u32)> {
    t.map_values(|e: (String, u32)| (e.0@, e.1))
}

/// No tool name appears twice.
pub open spec fn distinct_keys(t: Seq<(Seq<char>, u32)>) -> bool {
    forall|i: int, j: int| 0 <= i < j < t.len() ==> t[i].0 != t[j].0
}

/// The tool names come in strictly increasing order.
pub open spec fn keys_sorted(t: Seq<(Seq<char>, u32)>) -> bool {
    forall|i: int, j: int| 0 <= i < j < t.len() ==> lex_lt(t[i].0, t[j].0)
}

/// The index of `k` in the tally, if it is there.
pub open spec fn key_index(t: Seq<(Seq<char>, u32)>, k: Seq<char>) -> Option<int> {
    if exists|i: int| 0 <= i < t.len() && t[i].0 == k {
        Some(choose|i: int| 0 <= i < t.len() && t[i].0 == k)
    } else {
        None
    }
}

/// The count recorded for tool `k` (zero when it was never used).
pub open spec fn count_of(t: Seq<(Seq<char>, u32)>, k: Seq<char>) -> nat {
    match key_index(t, k) {
        Some(i) => t[i].1 as nat,
        None => 0,
    }
}

/// `p` is where name `k` belongs in the tally: after every name before it,
/// before every name after it.
pub open spec fn is_slot(t: Seq<(Seq<char>, u32)>, k: Seq<char>, p: int) -> bool {
    &&& 0 <= p <= t.len()
    &&& forall|j: int| 0 <= j < p ==> lex_lt(#[trigger] t[j].0, k)
    &&& forall|j: int| p <= j < t.len() ==> lex_lt(k, #[trigger] t[j].0)
}

/// Where a new name `k` goes in a sorted tally.
pub open spec fn slot_of(t: Seq<(Seq<char>, u32)>, k: Seq<char>) -> int {
    choose|p: int| is_slot(t, k, p)
}

/// The tally after one more use of tool `k`.
pub open spec fn bumped(t: Seq<(Seq<char>, u32)>, k: Seq<char>) -> Seq<(Seq<char>, u32)> {
    match key_index(t, k) {
        Some(i) => t.update(i, (k, (t[i].1 + 1) as u32)),
        None => t.insert(slot_of(t, k), (k, 1u32)),
    }
}

/// A name that a sorted tally lacks has a place in it.
pub proof fn lemma_slot_exists(t: Seq<(Seq<char>, u32)>, k: Seq<char>)
    requires
        keys_sorted(t),
        key_index(t, k) is None,
    ensures
        is_slot(t, k, slot_of(t, k)),
    decreases t.len(),
{
    if t.len() == 0 {
        assert(is_slot(t, k, 0));
    } else {
        let l = t.len() - 1;
        assert(t[l].0 != k);
        lemma_lex_total(t[l].0, k);
        if lex_lt(t[l].0, k) {
            assert forall|j: int| 0 <= j < t.len() implies lex_lt(#[trigger] t[j].0, k) by {
                if j < l {
                    lemma_lex_transitive(t[j].0, t[l].0, k);
                }
            }
            assert(is_slot(t, k, t.len() as int));
        } else {
            let d = t.drop_last();
            assert forall|j: int| 0 <= j < d.len() implies d[j].0 != k by {
                assert(d[j] == t[j]);
            }
            lemma_slot_exists(d, k);
            let p = slot_of(d, k);
            assert forall|j: int| p <= j < t.len() implies lex_lt(k, #[trigger] t[j].0) by {
                if j < l {
                    assert(d[j] == t[j]);
                }
            }
            assert forall|j: int| 0 <= j < p implies lex_lt(#[trigger] t[j].0, k) by {
                assert(d[j] == t[j]);
            }
            assert(is_slot(t, k, p));
        }
    }
}

/// A name has only one place in a sorted tally.
proof fn lemma_slot_unique(t: Seq<(Seq<char>, u32)>, k: Seq<char>, p: int, q: int)
    requires
        is_slot(t, k, p),
        is_slot(t, k, q),
    ensures
        p == q,
{
    if p < q {
        lemma_lex_total(t[p].0, k);
    } else if q < p {
        lemma_lex_total(t[q].0, k);
    }
}

/// Inserting an entry adds its count to the total.
pub proof fn lemma_tally_sum_insert(t: Seq<(Seq<char>, u32)>, p: int, e: (Seq<char>, u32))
    requires
        0 <= p <= t.len(),
    ensures
        tally_sum(t.insert(p, e)) == tally_sum(t) + e.1,
    decreases t.len(),
{
    let u = t.insert(p, e);
    if p == t.len() {
        assert(u.drop_last() =~= t);
    } else {
        lemma_tally_sum_insert(t.drop_last(), p, e);
        assert(u.drop_last() =~= t.drop_last().insert(p, e));
    }
}

/// Inserting a name at its place keeps a tally sorted.
pub proof fn lemma_insert_sorted(t: Seq<(Seq<char>, u32)>, k: Seq<char>, p: int, c: u32)
    requires
        keys_sorted(t),
        is_slot(t, k, p),
    ensures
        keys_sorted(t.insert(p, (k, c))),
        distinct_keys(t.insert(p, (k, c))),
{
    let u = t.insert(p, (k, c));
    assert forall|a: int, b: int| 0 <= a < b < u.len() implies lex_lt(u[a].0, u[b].0) by {
        if b < p {
            assert(u[a] == t[a] && u[b] == t[b]);
        } else if b == p {
            assert(u[a] == t[a]);
        } else if a == p {
            assert(u[b] == t[b - 1]);
        } else if a < p {
            assert(u[a] == t[a] && u[b] == t[b - 1]);
            lemma_lex_transitive(t[a].0, k, t[b - 1].0);
        } else {
            assert(u[a] == t[a - 1] && u[b] == t[b - 1]);
        }
    }
    assert forall|a: int, b: int| 0 <= a < b < u.len() implies u[a].0 != u[b].0 by {
        if u[a].0 == u[b].0 {
            lemma_lex_irreflexive(u[a].0);
        }
    }
}

/// Records one more use of tool `name`.
pub fn bump_tool(tally: &mut Vec<(String, u32)>, name: &str)
    requires
        distinct_keys(tally_view(old(tally)@)),
        keys_sorted(tally_view(old(tally)@)),
        count_of(tally_view(old(tally)@), name@) < u32::MAX,
    ensures
        distinct_keys(tally_view(final(tally)@)),
        keys_sorted(tally_view(final(tally)@)),
        tally_view(final(tally)@) == bumped(tally_view(old(tally)@), name@),
{
    let ghost t0 = tally_view(tally@);
    let wanted = String::from_str(name);
    let n = tally.len();
    let mut i: usize = 0;
    while i < n
        invariant
            n == tally@.len(),
            tally_view(tally@) == t0,
            tally@ == old(tally)@,
            t0 == tally_view(old(tally)@),
            wanted@ == name@,
            distinct_keys(t0),
            keys_sorted(t0),
            count_of(t0, name@) < u32::MAX,
            i <= n,
            forall|j: int| 0 <= j < i ==> t0[j].0 != name@,
        decreases n - i,
    {
        assert(t0[i as int] == (tally@[i as int].0@, tally@[i as int].1));
        if tally[i].0 == wanted {
            proof {
                assert(t0[i as int] == (tally@[i as int].0@, tally@[i as int].1));
                assert(t0[i as int].0 == name@);
                assert(distinct_keys(t0));
                let k = choose|j: int| 0 <= j < t0.len() && t0[j].0 == name@;
                assert(k == i as int);
                assert(key_index(t0, name@) == Some(i as int));
            }
            let c = tally[i].1;
            let key = tally[i].0.clone();
            tally.set(i, (key, c + 1));
            proof {
                assert(tally_view(tally@) =~= t0.update(i as int, (name@, (c + 1) as u32)));
                assert(bumped(t0, name@) == t0.update(i as int, (name@, (c + 1) as u32)));
                assert(t0 == tally_view(old(tally)@));
                assert(tally_view(tally@) == bumped(tally_view(old(tally)@), name@));
                let t1 = tally_view(tally@);
                assert forall|a: int, b: int| 0 <= a < b < t1.len() implies lex_lt(t1[a].0, t1[b].0) && t1[a].0 != t1[b].0 by {
                    assert(t1[a].0 == t0[a].0 && t1[b].0 == t0[b].0);
                }
            }
            return;
        }
        i += 1;
    }
    assert(key_index(t0, name@) is None);
    let mut pos: usize = 0;
    while pos < n && str_lt(tally[pos].0.as_str(), name)
        invariant
            n == tally@.len(),
            tally_view(tally@) == t0,
            pos <= n,
            forall|j: int| 0 <= j < pos ==> lex_lt(#[trigger] t0[j].0, name@),
        decreases n - pos,
    {
        assert(t0[pos as int].0 == tally@[pos as int].0@);
        pos += 1;
    }
    proof {
        if pos < n {
            assert(t0[pos as int].0 == tally@[pos as int].0@);
            assert(t0[pos as int].0 != name@);
            lemma_lex_total(t0[pos as int].0, name@);
        }
        assert forall|j: int| pos <= j < t0.len() implies lex_lt(name@, #[trigger] t0[j].0) by {
            if j > pos {
                lemma_lex_transitive(name@, t0[pos as int].0, t0[j].0);
            }
        }
        assert(is_slot(t0, name@, pos as int));
        lemma_slot_exists(t0, name@);
        lemma_slot_unique(t0, name@, pos as int, slot_of(t0, name@));
        lemma_insert_sorted(t0, name@, pos as int, 1u32);
    }
    tally.insert(pos, (String::from_str(name), 1));
    assert(tally_view(tally@) =~= t0.insert(pos as int, (name@, 1u32)));
}

/// Token counts reported by the harness.
#[derive(Debug, Clone, Copy)]
pub struct Usage {
    pub input_tokens: u64,
    pub cached_input_tokens: u64,
    pub output_tokens: u64,
    pub reasoning_tokens: u64,
    pub api_duration_ms: Option<u64>,
}

impl Usage {
    /// No tokens counted and no duration known.
    pub open spec fn default_value() -> Usage {
        Usage {
            input_tokens: 0,
            cached_input_tokens: 0,
            output_tokens: 0,
            reasoning_tokens: 0,
            api_duration_ms: None,
        }
    }
}

impl Default for Usage {
    fn default() -> (u: Usage)
        ensures
            u == Usage::default_value(),
    {
        Usage {
            input_tokens: 0,
            cached_input_tokens: 0,
            output_tokens: 0,
            reasoning_tokens: 0,
            api_duration_ms: None,
        }
    }
}

/// What an agent did during one run.
#[derive(Debug, Clone)]
pub struct Behavior {
    pub turns: u32,
    pub tool_calls: u32,
    /// Calls per tool name, in increasing order of names.
    pub tool_breakdown: Vec<(String, u32)>,
    pub shell_commands: u32,
    pub ffmpeg_invocations: u32,
    pub python_invocations: u32,
    pub images_read: u32,
    /// Sampling rates the model asked ffmpeg for: those of `fps=N` filters,
    /// then those of `-r N` options, at most `MAX_FPS` of them.
    pub chosen_fps: Vec<String>,
    pub used_crop: bool,
    pub used_scale: bool,
    pub used_frame_diff: bool,
    pub used_contrast_stretch: bool,
    /// Highest frame count we can attribute to a single command: the `N` of
    /// `-frames N`, `-frames:v N` or `-vframes N`. (A `select` filter states a
    /// condition on frames rather than a count, so it contributes none.)
    pub max_frames_extracted: u64,
    /// Commands showing the agent left its working directory and reached the
    /// benchmark's own source. Any entry invalidates the run's score.
    pub integrity_violations: Vec<String>,
}

/// A `Behavior` with its texts taken as character sequences.
pub struct BehaviorState {
    pub turns: u32,
    pub tool_calls: u32,
    pub tool_breakdown: Seq<(Seq<char>, u32)>,
    pub shell_commands: u32,
    pub ffmpeg_invocations: u32,
    pub python_invocations: u32,
    pub images_read: u32,
    pub chosen_fps: Seq<Seq<char>>,
    pub used_crop: bool,
    pub used_scale: bool,
    pub used_frame_diff: bool,
    pub used_contrast_stretch: bool,
    pub max_frames_extracted: u64,
    pub integrity_violations: Seq<Seq<char>>,
}

/// The texts of a list of strings.
pub open spec fn texts(v: Seq<String>) -> Seq<Seq<char>> {
    v.map_values(|s: String| s@)
}

impl View for Behavior {
    type V = BehaviorState;

    open spec fn view(&self) -> BehaviorState {
        BehaviorState {
            turns: self.turns,
            tool_calls: self.tool_calls,
            tool_breakdown: tally_view(self.tool_breakdown@),
            shell_commands: self.shell_commands,
            ffmpeg_invocations: self.ffmpeg_invocations,
            python_invocations: self.python_invocations,
            images_read: self.images_read,
            chosen_fps: texts(self.chosen_fps@),
            used_crop: self.used_crop,
            used_scale: self.used_scale,
            used_frame_diff: self.used_frame_diff,
            used_contrast_stretch: self.used_contrast_stretch,
            max_frames_extracted: self.max_frames_extracted,
            integrity_violations: texts(self.integrity_violations@),
        }
    }
}

impl Default for Behavior {
    fn default() -> (b: Behavior)
        ensures
            b@ == empty_behavior(),
    {
        let b = Behavior {
            turns: 0,
            tool_calls: 0,
            tool_breakdown: Vec::new(),
            shell_commands: 0,
            ffmpeg_invocations: 0,
            python_invocations: 0,
            images_read: 0,
            chosen_fps: Vec::new(),
            used_crop: false,
            used_scale: false,
            used_frame_diff: false,
            used_contrast_stretch: false,
            max_frames_extracted: 0,
            integrity_violations: Vec::new(),
        };
        assert(b@.tool_breakdown =~= Seq::<(Seq<char>, u32)>::empty());
        assert(b@.chosen_fps =~= Seq::<Seq<char>>::empty());
        assert(b@.integrity_violations =~= Seq::<Seq<char>>::empty());
        b
    }
}

/// The behaviour of a run in which nothing happened yet.
pub open spec fn empty_behavior() -> BehaviorState {
    BehaviorState {
        turns: 0,
        tool_calls: 0,
        tool_breakdown: Seq::empty(),
        shell_commands: 0,
        ffmpeg_invocations: 0,
        python_invocations: 0,
        images_read: 0,
        chosen_fps: Seq::empty(),
        used_crop: false,
        used_scale: false,
        used_frame_diff: false,
        used_contrast_stretch: false,
        max_frames_extracted: 0,
        integrity_violations: Seq::empty(),
    }
}

/// The tally is well formed: each tool name once, and every tool call
/// attributed to exactly one tool name (so no tool was used more often than
/// tools were called at all).
pub open spec fn behavior_wf(b: BehaviorState) -> bool {
    &&& distinct_keys(b.tool_breakdown)
    &&& keys_sorted(b.tool_breakdown)
    &&& forall|i: int| 0 <= i < b.tool_breakdown.len() ==> #[trigger] b.tool_breakdown[i].1 <= b.tool_calls
    &&& tally_sum(b.tool_breakdown) == b.tool_calls
}

/// The total of the per-tool counts.
pub open spec fn tally_sum(t: Seq<(Seq<char>, u32)>) -> int
    decreases t.len(),
{
    if t.len() == 0 {
        0
    } else {
        tally_sum(t.drop_last()) + t.last().1
    }
}

/// Changing one count changes the total by the difference.
pub proof fn lemma_tally_sum_update(t: Seq<(Seq<char>, u32)>, i: int, e: (Seq<char>, u32))
    requires
        0 <= i < t.len(),
    ensures
        tally_sum(t.update(i, e)) == tally_sum(t) - t[i].1 + e.1,
    decreases t.len(),
{
    let u = t.update(i, e);
    if i == t.len() - 1 {
        assert(u.drop_last() =~= t.drop_last());
    } else {
        lemma_tally_sum_update(t.drop_last(), i, e);
        assert(u.drop_last() =~= t.drop_last().update(i, e));
    }
}

/// A run in which nothing happened is well formed.
pub proof fn lemma_empty_behavior_wf()
    ensures
        behavior_wf(empty_behavior()),
{
}

/// Everything kept from a finished run.
#[derive(Debug, Clone)]
pub struct RunOutput {
    pub exit_code: Option<i32>,
    pub timed_out: bool,
    /// Killed for emitting nothing at all, rather than for taking too long.
    pub stalled: bool,
    pub wall_ms: u128,
    pub final_message: String,
    pub answer_json_present: bool,
    pub raw_answer: Option<String>,
    pub behavior: Behavior,
    pub usage: Usage,
    pub workdir_listing: Vec<String>,
}

/// A `RunOutput` with its texts taken as character sequences.
pub struct RunOutputState {
    pub exit_code: Option<i32>,
    pub timed_out: bool,
    pub stalled: bool,
    pub wall_ms: u128,
    pub final_message: Seq<char>,
    pub answer_json_present: bool,
    pub raw_answer: Option<Seq<char>>,
    pub behavior: BehaviorState,
    pub usage: Usage,
    pub workdir_listing: Seq<Seq<char>>,
}

/// The text of an optional string.
pub open spec fn opt_text(s: Option<String>) -> Option<Seq<char>> {
    match s {
        Some(t) => Some(t@),
        None => None,
    }
}

impl View for RunOutput {
    type V = RunOutputState;

    open spec fn view(&self) -> RunOutputState {
        RunOutputState {
            exit_code: self.exit_code,
            timed_out: self.timed_out,
            stalled: self.stalled,
            wall_ms: self.wall_ms,
            final_message: self.final_message@,
            answer_json_present: self.answer_json_present,
            raw_answer: opt_text(self.raw_answer),
            behavior: self.behavior@,
            usage: self.usage,
            workdir_listing: texts(self.workdir_listing@),
        }
    }
}

impl RunOutput {
    /// The output of a run before anything was collected from it.
    pub fn new() -> (o: RunOutput)
        ensures
            o@.exit_code is None,
            !o@.timed_out,
            !o@.stalled,
            o@.wall_ms == 0,
            o@.final_message == Seq::<char>::empty(),
            !o@.answer_json_present,
            o@.raw_answer is None,
            o@.behavior == empty_behavior(),
            o@.usage == Usage::default_value(),
            o@.workdir_listing == Seq::<Seq<char>>::empty(),
    {
        let o = RunOutput {
            exit_code: None,
            timed_out: false,
            stalled: false,
            wall_ms: 0,
            final_message: String::new(),
            answer_json_present: false,
            raw_answer: None,
            behavior: Behavior::default(),
            usage: Usage::default(),
            workdir_listing: Vec::new(),
        };
        assert(o@.workdir_listing =~= Seq::<Seq<char>>::empty());
        o
    }
}

/// At most this many integrity violations are kept per run.
pub const MAX_VIOLATIONS: usize = 20;

/// At most this many sampling rates are kept per run.
pub const MAX_FPS: usize = 24;

/// A violation keeps at most this many characters of the command.
pub const SNIPPET_CHARS: usize = 240;

/// The index of the first integrity marker that occurs in `lower`.
pub open spec fn first_marker(lower: Seq<char>) -> Option<int> {
    let m = spec_integrity_markers();
    if has_substring(lower, m[0]) {
        Some(0)
    } else if has_substring(lower, m[1]) {
        Some(1)
    } else if has_substring(lower, m[2]) {
        Some(2)
    } else if has_substring(lower, m[3]) {
        Some(3)
    } else {
        None
    }
}

/// The record of a violation: the marker in brackets, then the start of the
/// command.
pub open spec fn violation_text(marker: Seq<char>, cmd: Seq<char>) -> Seq<char> {
    let keep = if cmd.len() < SNIPPET_CHARS { cmd.len() as int } else { SNIPPET_CHARS as int };
    seq!['['] + marker + seq![']', ' '] + cmd.take(keep)
}

/// Characters that can belong to an `fps=N` token.
pub open spec fn is_token_char(c: char) -> bool {
    is_ascii_alnum(c) || c == '.' || c == '='
}

/// The pieces of `s` between separators, as `str::split` yields them: `n`
/// separators give `n + 1` pieces, some of them possibly empty.
pub open spec fn split_tokens(s: Seq<char>) -> Seq<Seq<char>>
    decreases s.len(),
{
    if s.len() == 0 {
        seq![Seq::<char>::empty()]
    } else {
        let parts = split_tokens(s.drop_last());
        if is_token_char(s.last()) {
            parts.update(parts.len() - 1, parts.last().push(s.last()))
        } else {
            parts.push(Seq::<char>::empty())
        }
    }
}

/// There is always at least one piece.
pub proof fn lemma_split_tokens_len(s: Seq<char>)
    ensures
        split_tokens(s).len() >= 1,
    decreases s.len(),
{
    if s.len() > 0 {
        lemma_split_tokens_len(s.drop_last());
    }
}

/// The rates named by `fps=N` tokens (the text after `fps=`, when there is any).
pub open spec fn fps_values(parts: Seq<Seq<char>>) -> Seq<Seq<char>>
    decreases parts.len(),
{
    if parts.len() == 0 {
        Seq::empty()
    } else {
        let r = fps_values(parts.drop_last());
        let p = parts.last();
        if has_prefix(p, "fps="@) && p.len() > 4 {
            r.push(p.skip(4))
        } else {
            r
        }
    }
}

/// Appends `vals` to `acc` one by one while `acc` is shorter than `cap`.
pub open spec fn push_capped(acc: Seq<Seq<char>>, vals: Seq<Seq<char>>, cap: nat) -> Seq<Seq<char>>
    decreases vals.len(),
{
    if vals.len() == 0 {
        acc
    } else {
        let a = push_capped(acc, vals.drop_last(), cap);
        if a.len() < cap {
            a.push(vals.last())
        } else {
            a
        }
    }
}

/// `n` plus one when `hit`, else `n`.
pub open spec fn count_if(n: u32, hit: bool) -> u32 {
    if hit {
        (n + 1) as u32
    } else {
        n
    }
}

/// The first index at or after `k` that does not hold whitespace.
pub open spec fn skip_ws(s: Seq<char>, k: int) -> int
    decreases s.len() - k,
{
    if 0 <= k < s.len() && white_space(s[k]) {
        skip_ws(s, k + 1)
    } else {
        k
    }
}

/// The end of the run of token characters (see `is_token_char`) that starts
/// at `k`.
pub open spec fn token_end(s: Seq<char>, k: int) -> int
    decreases s.len() - k,
{
    if 0 <= k < s.len() && is_token_char(s[k]) {
        token_end(s, k + 1)
    } else {
        k
    }
}

/// The value given to command-line option `name` written at index `i` of
/// `s`: `name` starts a word there and is followed by whitespace, and the
/// value is the run of token characters after that whitespace. `None` when
/// the option is not written at `i`, or its value is empty.
pub open spec fn option_value(s: Seq<char>, i: int, name: Seq<char>) -> Option<Seq<char>> {
    let k = i + name.len();
    if 0 <= i && (i == 0 || white_space(s[i - 1])) && k < s.len() && s.subrange(i, k) == name
        && white_space(s[k]) {
        let j = skip_ws(s, k);
        let e = token_end(s, j);
        if e > j {
            Some(s.subrange(j, e))
        } else {
            None
        }
    } else {
        None
    }
}

/// The rates set with `-r N` in the first `n` characters of `s`, in order.
pub open spec fn r_rates(s: Seq<char>, n: int) -> Seq<Seq<char>>
    decreases n,
{
    if n <= 0 {
        Seq::empty()
    } else {
        let r = r_rates(s, n - 1);
        match option_value(s, n - 1, "-r"@) {
            Some(v) => r.push(v),
            None => r,
        }
    }
}

/// The number a text of decimal digits denotes, when it fits in a `u64`;
/// zero otherwise.
pub open spec fn count_text(t: Seq<char>) -> nat {
    if all_digits(t) && digits_value(t) <= u64::MAX {
        digits_value(t)
    } else {
        0
    }
}

/// The frame count asked for at index `i` of `s` with `-frames N`,
/// `-frames:v N` or `-vframes N` (zero when none is).
pub open spec fn frame_count_at(s: Seq<char>, i: int) -> nat {
    match option_value(s, i, "-frames"@) {
        Some(v) => count_text(v),
        None => match option_value(s, i, "-frames:v"@) {
            Some(v) => count_text(v),
            None => match option_value(s, i, "-vframes"@) {
                Some(v) => count_text(v),
                None => 0,
            },
        },
    }
}

/// The largest frame count asked for in the first `n` characters of `s`.
pub open spec fn max_frames_upto(s: Seq<char>, n: int) -> nat
    decreases n,
{
    if n <= 0 {
        0
    } else {
        let m = max_frames_upto(s, n - 1);
        let c = frame_count_at(s, n - 1);
        if c > m {
            c
        } else {
            m
        }
    }
}

/// A frame count always fits in a `u64`.
pub proof fn lemma_max_frames_bound(s: Seq<char>, n: int)
    ensures
        max_frames_upto(s, n) <= u64::MAX,
    decreases n,
{
    if n > 0 {
        lemma_max_frames_bound(s, n - 1);
    }
}

/// The behaviour after the agent ran shell command `cmd`, whose lowercase
/// form is `lower`.
pub open spec fn scan_step_lowered(b: BehaviorState, lower: Seq<char>, cmd: Seq<char>) -> BehaviorState {
    let has = |p: Seq<char>| has_substring(lower, p);
    let frames = max_frames_upto(lower, lower.len() as int);
    BehaviorState {
        shell_commands: (b.shell_commands + 1) as u32,
        integrity_violations: match first_marker(lower) {
            Some(k) => if b.integrity_violations.len() < MAX_VIOLATIONS {
                b.integrity_violations.push(violation_text(spec_integrity_markers()[k], cmd))
            } else {
                b.integrity_violations
            },
            None => b.integrity_violations,
        },
        ffmpeg_invocations: count_if(b.ffmpeg_invocations, has("ffmpeg"@) || has("ffprobe"@)),
        python_invocations: count_if(b.python_invocations, has("python"@) || has("numpy"@)),
        used_crop: b.used_crop || has("crop"@),
        used_scale: b.used_scale || has("scale="@) || has("-vf scale"@),
        used_frame_diff: b.used_frame_diff || has("tblend"@) || has("absdiff"@) || has(
            "difference"@,
        ) || has("np.diff"@) || has("frame_diff"@),
        used_contrast_stretch: b.used_contrast_stretch || has("eq=contrast"@) || has(
            "normalize"@,
        ) || has("histeq"@) || has("autolevel"@) || has("curves"@),
        chosen_fps: push_capped(
            push_capped(b.chosen_fps, fps_values(split_tokens(lower)), MAX_FPS as nat),
            r_rates(lower, lower.len() as int),
            MAX_FPS as nat,
        ),
        max_frames_extracted: if frames > b.max_frames_extracted {
            frames as u64
        } else {
            b.max_frames_extracted
        },
        ..b
    }
}

/// The behaviour after the agent ran shell command `cmd`: the command is
/// classified by its lowercase form.
pub open spec fn scan_step(b: BehaviorState, cmd: Seq<char>) -> BehaviorState {
    scan_step_lowered(b, lowercase(cmd), cmd)
}

/// Whether the lowercase command mentions `pat`.
fn mentions(lower: &Vec<char>, pat: &str) -> (b: bool)
    ensures
        b == has_substring(lower@, pat@),
{
    let p = chars_of(pat);
    contains_chars(lower, &p)
}

/// Records a candidate `fps=` token in `chosen`.
fn take_fps_token(chosen: &mut Vec<String>, tok: &Vec<char>)
    ensures
        texts(final(chosen)@) == ({
            let t = texts(old(chosen)@);
            if has_prefix(tok@, "fps="@) && tok@.len() > 4 && t.len() < MAX_FPS {
                t.push(tok@.skip(4))
            } else {
                t
            }
        }),
{
    proof {
        reveal_strlit("fps=");
    }
    let prefix = chars_of("fps=");
    if starts_with_chars(tok, &prefix) && chosen.len() < MAX_FPS {
        assert(prefix@.len() == 4);
        let mut rest: Vec<char> = Vec::new();
        let mut j: usize = 4;
        if j < tok.len() {
            while j < tok.len()
                invariant
                    4 <= j <= tok@.len(),
                    rest@ == tok@.subrange(4, j as int),
                decreases tok@.len() - j,
            {
                rest.push(tok[j]);
                assert(tok@.subrange(4, j + 1) =~= tok@.subrange(4, j as int).push(tok@[j as int]));
                j += 1;
            }
            assert(tok@.skip(4) =~= tok@.subrange(4, tok@.len() as int));
            let ghost t = texts(chosen@);
            chosen.push(string_of(&rest));
            assert(texts(chosen@) =~= t.push(tok@.skip(4)));
        }
    }
}

/// Classifies one shell command: counts it, flags integrity markers, tool use
/// (ffmpeg, python, cropping, scaling, frame differencing, contrast
/// stretching), records the sampling rates it asks for and the largest
/// frame count it extracts.
pub fn scan_command(cmd: &str, b: &mut Behavior)
    requires
        old(b).shell_commands < u32::MAX,
        old(b).ffmpeg_invocations < u32::MAX,
        old(b).python_invocations < u32::MAX,
    ensures
        final(b)@ == scan_step(old(b)@, cmd@),
{
    let lower_s = to_lowercase(cmd);
    let lower = chars_of(lower_s.as_str());
    scan_lowered(&lower, cmd, b);
}

/// Classifies shell command `cmd`, given its lowercase form `lower`.
pub fn scan_lowered(lower: &Vec<char>, cmd: &str, b: &mut Behavior)
    requires
        old(b).shell_commands < u32::MAX,
        old(b).ffmpeg_invocations < u32::MAX,
        old(b).python_invocations < u32::MAX,
    ensures
        final(b)@ == scan_step_lowered(old(b)@, lower@, cmd@),
{
    b.shell_commands += 1;
    match find_marker(lower) {
        Some(k) => {
            if b.integrity_violations.len() < MAX_VIOLATIONS {
                let m = integrity_markers()[k];
                let text = violation_of(m, cmd);
                let ghost before = texts(b.integrity_violations@);
                b.integrity_violations.push(string_of(&text));
                assert(texts(b.integrity_violations@) =~= before.push(text@));
            }
        },
        None => {},
    }
    if mentions(lower, "ffmpeg") || mentions(lower, "ffprobe") {
        b.ffmpeg_invocations += 1;
    }
    if mentions(lower, "python") || mentions(lower, "numpy") {
        b.python_invocations += 1;
    }
    if mentions(lower, "crop") {
        b.used_crop = true;
    }
    if mentions(lower, "scale=") || mentions(lower, "-vf scale") {
        b.used_scale = true;
    }
    // Signals that the model reasoned about the hiding mechanism rather than
    // just eyeballing frames.
    if mentions(lower, "tblend") || mentions(lower, "absdiff") || mentions(lower, "difference")
        || mentions(lower, "np.diff") || mentions(lower, "frame_diff") {
        b.used_frame_diff = true;
    }
    if mentions(lower, "eq=contrast") || mentions(lower, "normalize") || mentions(
        lower,
        "histeq",
    ) || mentions(lower, "autolevel") || mentions(lower, "curves") {
        b.used_contrast_stretch = true;
    }
    // `fps=N` / `-r N`
    record_fps(lower, &mut b.chosen_fps);
    // `-frames N` and its spellings
    record_options(lower, &mut b.chosen_fps, &mut b.max_frames_extracted);
}

/// Whether `c` can belong to a token.
fn token_char(c: char) -> (r: bool)
    ensures
        r == is_token_char(c),
{
    ('a' <= c && c <= 'z') || ('A' <= c && c <= 'Z') || ('0' <= c && c <= '9') || c == '.' || c == '='
}

/// The first index at or after `k` that does not hold whitespace.
fn skip_ws_from(s: &Vec<char>, k: usize) -> (j: usize)
    requires
        k <= s@.len(),
    ensures
        j == skip_ws(s@, k as int),
        k <= j <= s@.len(),
{
    let mut j = k;
    while j < s.len() && is_whitespace(s[j])
        invariant
            k <= j <= s@.len(),
            skip_ws(s@, k as int) == skip_ws(s@, j as int),
        decreases s@.len() - j,
    {
        j += 1;
    }
    j
}

/// The end of the run of token characters that starts at `k`.
fn token_end_from(s: &Vec<char>, k: usize) -> (j: usize)
    requires
        k <= s@.len(),
    ensures
        j == token_end(s@, k as int),
        k <= j <= s@.len(),
{
    let mut j = k;
    while j < s.len() && token_char(s[j])
        invariant
            k <= j <= s@.len(),
            token_end(s@, k as int) == token_end(s@, j as int),
        decreases s@.len() - j,
    {
        j += 1;
    }
    j
}

/// Whether `name` is written at index `i` of `s`.
fn written_at(s: &Vec<char>, i: usize, name: &Vec<char>) -> (r: bool)
    requires
        i + name@.len() <= s@.len(),
    ensures
        r == (s@.subrange(i as int, i + name@.len()) == name@),
{
    let n = s.len();
    let mut k: usize = 0;
    while k < name.len()
        invariant
            n == s@.len(),
            i + name@.len() <= s@.len(),
            k <= name@.len(),
            forall|t: int| 0 <= t < k ==> s@[i + t] == name@[t],
        decreases name@.len() - k,
    {
        if s[i + k] != name[k] {
            assert(s@.subrange(i as int, i + name@.len())[k as int] != name@[k as int]);
            return false;
        }
        k += 1;
    }
    assert(s@.subrange(i as int, i + name@.len()) =~= name@);
    true
}

/// The characters of `s` from `j` to `e`.
fn chars_between(s: &Vec<char>, j: usize, e: usize) -> (v: Vec<char>)
    requires
        j <= e <= s@.len(),
    ensures
        v@ == s@.subrange(j as int, e as int),
{
    let mut v: Vec<char> = Vec::new();
    let mut k = j;
    while k < e
        invariant
            j <= k <= e <= s@.len(),
            v@ == s@.subrange(j as int, k as int),
        decreases e - k,
    {
        v.push(s[k]);
        assert(s@.subrange(j as int, k + 1) =~= s@.subrange(j as int, k as int).push(s@[k as int]));
        k += 1;
    }
    v
}

/// The value given to option `name` at index `i` of `s`.
fn option_at(s: &Vec<char>, i: usize, name: &Vec<char>) -> (r: Option<Vec<char>>)
    requires
        i < s@.len(),
    ensures
        match r {
            Some(v) => option_value(s@, i as int, name@) == Some(v@),
            None => option_value(s@, i as int, name@) is None,
        },
{
    if name.len() >= s.len() - i {
        return None;
    }
    let k = i + name.len();
    if !(i == 0 || is_whitespace(s[i - 1])) {
        return None;
    }
    if !written_at(s, i, name) {
        return None;
    }
    if !is_whitespace(s[k]) {
        return None;
    }
    let j = skip_ws_from(s, k);
    let e = token_end_from(s, j);
    if e > j {
        Some(chars_between(s, j, e))
    } else {
        None
    }
}

/// The number a text of decimal digits denotes, when it fits in a `u64`;
/// zero otherwise.
fn count_of_text(t: &Vec<char>) -> (n: u64)
    ensures
        n == count_text(t@),
{
    let cap: u128 = 0x1_0000_0000_0000_0000;
    let mut acc: u128 = 0;
    let mut k: usize = 0;
    while k < t.len()
        invariant
            k <= t@.len(),
            cap == 0x1_0000_0000_0000_0000,
            all_digits(t@.take(k as int)),
            acc as nat == (if digits_value(t@.take(k as int)) < cap {
                digits_value(t@.take(k as int))
            } else {
                cap as nat
            }),
        decreases t@.len() - k,
    {
        let c = t[k];
        if !('0' <= c && c <= '9') {
            assert(t@[k as int] == c);
            assert(!all_digits(t@));
            return 0;
        }
        let d: u128 = (c as u128) - 48;
        let ghost pre = t@.take(k as int);
        assert(t@.take(k + 1) =~= pre.push(c));
        assert(t@.take(k + 1).drop_last() =~= pre);
        proof {
            let x = digits_value(pre);
            assert(x * 10 + d >= x) by (nonlinear_arith)
                requires
                    x >= 0,
                    d >= 0,
            ;
            if x < cap {
                assert(x * 10 + d < cap * 10 + 10) by (nonlinear_arith)
                    requires
                        x < cap,
                        d < 10,
                ;
            }
        }
        let next = acc * 10 + d;
        acc = if next < cap { next } else { cap };
        k += 1;
    }
    assert(t@.take(t@.len() as int) =~= t@);
    if acc < cap {
        acc as u64
    } else {
        0
    }
}

/// Records the rates set with `-r N` in `lower`, while fewer than `MAX_FPS`
/// rates are recorded, and raises `max_frames` to the largest frame count
/// that `lower` asks for.
fn record_options(lower: &Vec<char>, chosen: &mut Vec<String>, max_frames: &mut u64)
    ensures
        texts(final(chosen)@) == push_capped(
            texts(old(chosen)@),
            r_rates(lower@, lower@.len() as int),
            MAX_FPS as nat,
        ),
        *final(max_frames) == (if max_frames_upto(lower@, lower@.len() as int) > *old(max_frames) {
            max_frames_upto(lower@, lower@.len() as int) as u64
        } else {
            *old(max_frames)
        }),
{
    let ghost start = texts(chosen@);
    let ghost m0 = *max_frames;
    let r_name = chars_of("-r");
    let f_name = chars_of("-frames");
    let fv_name = chars_of("-frames:v");
    let vf_name = chars_of("-vframes");
    let n = lower.len();
    let mut i: usize = 0;
    while i < n
        invariant
            n == lower@.len(),
            i <= n,
            r_name@ == "-r"@,
            f_name@ == "-frames"@,
            fv_name@ == "-frames:v"@,
            vf_name@ == "-vframes"@,
            texts(chosen@) == push_capped(start, r_rates(lower@, i as int), MAX_FPS as nat),
            *max_frames as nat == (if max_frames_upto(lower@, i as int) > m0 {
                max_frames_upto(lower@, i as int)
            } else {
                m0 as nat
            }),
        decreases n - i,
    {
        let ghost before = r_rates(lower@, i as int);
        match option_at(lower, i, &r_name) {
            Some(v) => {
                proof {
                    assert(before.push(v@).drop_last() =~= before);
                }
                if chosen.len() < MAX_FPS {
                    let ghost t = texts(chosen@);
                    chosen.push(string_of(&v));
                    assert(texts(chosen@) =~= t.push(v@));
                }
            },
            None => {},
        }
        let c: u64 = match option_at(lower, i, &f_name) {
            Some(v) => count_of_text(&v),
            None => match option_at(lower, i, &fv_name) {
                Some(v) => count_of_text(&v),
                None => match option_at(lower, i, &vf_name) {
                    Some(v) => count_of_text(&v),
                    None => 0,
                },
            },
        };
        assert(c == frame_count_at(lower@, i as int));
        if c > *max_frames {
            *max_frames = c;
        }
        i += 1;
    }
}

/// Records the sampling rates that the `fps=` tokens of `lower` name.
fn record_fps(lower: &Vec<char>, chosen: &mut Vec<String>)
    ensures
        texts(final(chosen)@) == push_capped(
            texts(old(chosen)@),
            fps_values(split_tokens(lower@)),
            MAX_FPS as nat,
        ),
{
    let ghost start = texts(chosen@);
    let n = lower.len();
    let mut cur: Vec<char> = Vec::new();
    let mut i: usize = 0;
    proof {
        assert(lower@.take(0) =~= Seq::<char>::empty());
        assert(split_tokens(Seq::<char>::empty()).drop_last() =~= Seq::<Seq<char>>::empty());
    }
    while i < n
        invariant
            n == lower@.len(),
            i <= n,
            cur@ == split_tokens(lower@.take(i as int)).last(),
            split_tokens(lower@.take(i as int)).len() >= 1,
            texts(chosen@) == push_capped(
                start,
                fps_values(split_tokens(lower@.take(i as int)).drop_last()),
                MAX_FPS as nat,
            ),
        decreases n - i,
    {
        let c = lower[i];
        let ghost parts = split_tokens(lower@.take(i as int));
        proof {
            assert(lower@.take(i + 1).drop_last() =~= lower@.take(i as int));
            assert(lower@.take(i + 1).last() == c);
        }
        if ('a' <= c && c <= 'z') || ('A' <= c && c <= 'Z') || ('0' <= c && c <= '9') || c == '.'
            || c == '=' {
            cur.push(c);
            proof {
                let np = split_tokens(lower@.take(i + 1));
                assert(np.drop_last() =~= parts.drop_last());
            }
        } else {
            let ghost vals = fps_values(parts.drop_last());
            proof {
                assert(parts =~= parts.drop_last().push(parts.last()));
                assert(split_tokens(lower@.take(i + 1)).drop_last() =~= parts);
            }
            take_fps_token(chosen, &cur);
            proof {
                let x = cur@.skip(4);
                assert(vals.push(x).drop_last() =~= vals);
            }
            cur = Vec::new();
        }
        i += 1;
    }
    proof {
        assert(lower@.take(n as int) =~= lower@);
        let parts = split_tokens(lower@);
        assert(parts =~= parts.drop_last().push(parts.last()));
        let vals = fps_values(parts.drop_last());
        assert(vals.push(cur@.skip(4)).drop_last() =~= vals);
    }
    take_fps_token(chosen, &cur);
}

/// The index of the first integrity marker that occurs in `lower`.
fn find_marker(lower: &Vec<char>) -> (r: Option<usize>)
    ensures
        r == (match first_marker(lower@) {
            Some(k) => Some(k as usize),
            None => None::<usize>,
        }),
        r matches Some(k) ==> k < 4,
{
    let markers = integrity_markers();
    let mut k: usize = 0;
    while k < 4
        invariant
            markers@.len() == 4,
            markers@.map_values(|s: &'static str| s@) == spec_integrity_markers(),
            k <= 4,
            forall|j: int| 0 <= j < k ==> !has_substring(lower@, #[trigger] spec_integrity_markers()[j]),
        decreases 4 - k,
    {
        assert(markers@[k as int]@ == spec_integrity_markers()[k as int]);
        if mentions(lower, markers[k]) {
            return Some(k);
        }
        k += 1;
    }
    None
}

/// The violation record for marker `m` found in command `cmd`.
fn violation_of(m: &str, cmd: &str) -> (text: Vec<char>)
    ensures
        text@ == violation_text(m@, cmd@),
{
    let cv = chars_of(cmd);
    let mut text: Vec<char> = Vec::new();
    text.push('[');
    let mv = chars_of(m);
    let mut j: usize = 0;
    while j < mv.len()
        invariant
            j <= mv@.len(),
            text@ == seq!['['] + mv@.take(j as int),
        decreases mv@.len() - j,
    {
        text.push(mv[j]);
        assert(mv@.take(j + 1) =~= mv@.take(j as int).push(mv@[j as int]));
        j += 1;
    }
    assert(mv@.take(mv@.len() as int) =~= mv@);
    text.push(']');
    text.push(' ');
    let keep = if cv.len() < SNIPPET_CHARS { cv.len() } else { SNIPPET_CHARS };
    let ghost head = text@;
    let mut j: usize = 0;
    while j < keep
        invariant
            keep <= cv@.len(),
            j <= keep,
            text@ == head + cv@.take(j as int),
        decreases keep - j,
    {
        text.push(cv[j]);
        assert(cv@.take(j + 1) =~= cv@.take(j as int).push(cv@[j as int]));
        j += 1;
    }
    assert(text@ =~= violation_text(m@, cmd@));
    text
}

/// A run is stuck once its event stream has been quiet for the idle limit:
/// `now_secs` and `last_event_secs` are seconds since the run started.
pub open spec fn stalled_at(now_secs: u64, last_event_secs: u64) -> bool {
    now_secs >= last_event_secs && now_secs - last_event_secs >= IDLE_TIMEOUT_SECS
}

/// The watchdog's decision, taken every few seconds: kill the run now?
pub fn is_stalled(now_secs: u64, last_event_secs: u64) -> (b: bool)
    ensures
        b == stalled_at(now_secs, last_event_secs),
{
    now_secs.saturating_sub(last_event_secs) >= IDLE_TIMEOUT_SECS
}

/// Records how the process ended. A run killed for silence counts as timed
/// out too, and keeps the flag that says why.
pub fn record_end(out: &mut RunOutput, exit_code: Option<i32>, timed_out: bool, stalled: bool, wall_ms: u128)
    ensures
        final(out)@ == (RunOutputState {
            exit_code: exit_code,
            timed_out: timed_out || stalled,
            stalled: stalled,
            wall_ms: wall_ms,
            ..old(out)@
        }),
{
    out.exit_code = exit_code;
    out.timed_out = timed_out || stalled;
    out.stalled = stalled;
    out.wall_ms = wall_ms;
}

/// Takes the answer from the file the prompt asked for when it exists, and
/// falls back to the final message otherwise.
pub fn record_answer(out: &mut RunOutput, answer_file: Option<String>)
    ensures
        final(out)@ == (match answer_file {
            Some(s) => RunOutputState {
                answer_json_present: true,
                raw_answer: Some(s@),
                ..old(out)@
            },
            None => if old(out)@.final_message.len() > 0 {
                RunOutputState { raw_answer: Some(old(out)@.final_message), ..old(out)@ }
            } else {
                old(out)@
            },
        }),
{
    match answer_file {
        Some(s) => {
            out.answer_json_present = true;
            out.raw_answer = Some(s);
        },
        None => {
            if out.final_message.unicode_len() > 0 {
                out.raw_answer = Some(out.final_message.clone());
            }
        },
    }
}

/// At most this many entries of a run's working directory are kept.
pub const MAX_LISTING: usize = 200;

/// The working directory's entry names as kept in the record: sorted, and at
/// most `MAX_LISTING` of them (the first ones in order).
pub fn finish_listing(entries: Vec<String>) -> (r: Vec<String>)
    ensures
        sorted(texts(r@)),
        r@.len() == (if entries@.len() < MAX_LISTING {
            entries@.len()
        } else {
            MAX_LISTING as nat
        }),
        exists|all: Seq<Seq<char>>|
            sorted(all) && all.to_multiset() == texts(entries@).to_multiset() && texts(r@)
                == all.take(r@.len() as int),
{
    let mut r = sort_texts(entries);
    let ghost all = texts(r@);
    proof {
        all.to_multiset_ensures();
        texts(entries@).to_multiset_ensures();
    }
    r.truncate(MAX_LISTING);
    assert(texts(r@) =~= all.take(r@.len() as int));
    r
}

/// The entries of a run's working directory that the cleanup keeps: the
/// answer, the raw event stream and the harness's error output. Everything
/// else (extracted frames, scratch scripts) can be rebuilt and is reclaimed.
pub open spec fn kept_entry(name: Seq<char>) -> bool {
    name == "answer.json"@ || name == "events.jsonl"@ || name == "stderr.log"@
}

/// Whether the cleanup keeps the entry called `name`.
pub fn keeps_entry(name: &str) -> (b: bool)
    ensures
        b == kept_entry(name@),
{
    str_eq(name, "answer.json") || str_eq(name, "events.jsonl") || str_eq(name, "stderr.log")
}

/// The text of `a` followed by that of `b`.
fn joined(a: &str, b: &str) -> (s: String)
    ensures
        s@ == a@ + b@,
{
    let mut v = chars_of(a);
    append_chars(&mut v, b);
    string_of(&v)
}

/// The arguments that the reasoning effort adds: none without one.
pub open spec fn effort_args(effort: Option<&'static str>) -> Seq<Seq<char>> {
    match effort {
        Some(e) => seq!["-c"@, "model_reasoning_effort="@ + e@],
        None => Seq::empty(),
    }
}

/// The arguments each harness's command-line tool is started with: the
/// prompt, the model, machine-readable events, and no permission prompts
/// (the run directory is a sandbox of its own).
pub open spec fn harness_args_spec(cfg: ModelCfg, prompt: Seq<char>) -> Seq<Seq<char>> {
    match cfg.harness {
        Harness::Claude => seq![
            "-p"@,
            prompt,
            "--model"@,
            cfg.model@,
            "--output-format"@,
            "stream-json"@,
            "--verbose"@,
            "--dangerously-skip-permissions"@,
        ],
        Harness::Codex => seq![
            "exec"@,
            "--json"@,
            "-m"@,
            cfg.model@,
            "--skip-git-repo-check"@,
            "--dangerously-bypass-approvals-and-sandbox"@,
        ] + effort_args(cfg.effort) + seq![prompt],
    }
}

/// Builds the argument list of a run of `cfg` with the text `prompt`.
pub fn harness_args(cfg: &ModelCfg, prompt: &str) -> (a: Vec<String>)
    ensures
        texts(a@) == harness_args_spec(*cfg, prompt@),
{
    let mut a: Vec<String> = Vec::new();
    match cfg.harness {
        Harness::Claude => {
            a.push("-p".to_owned());
            a.push(prompt.to_owned());
            a.push("--model".to_owned());
            a.push(cfg.model.to_owned());
            a.push("--output-format".to_owned());
            a.push("stream-json".to_owned());
            a.push("--verbose".to_owned());
            a.push("--dangerously-skip-permissions".to_owned());
        },
        Harness::Codex => {
            a.push("exec".to_owned());
            a.push("--json".to_owned());
            a.push("-m".to_owned());
            a.push(cfg.model.to_owned());
            a.push("--skip-git-repo-check".to_owned());
            a.push("--dangerously-bypass-approvals-and-sandbox".to_owned());
            match cfg.effort {
                Some(e) => {
                    a.push("-c".to_owned());
                    a.push(joined("model_reasoning_effort=", e));
                },
                None => {},
            }
            a.push(prompt.to_owned());
        },
    }
    assert(texts(a@) =~= harness_args_spec(*cfg, prompt@));
    a
}

/// The environment each harness's tool gets on top of the inherited one:
/// the other harness's runs use its personal profile under `home`, with the
/// multiplexer's hooks switched off.
pub open spec fn harness_env_spec(h: Harness, home: Seq<char>) -> Seq<(Seq<char>, Seq<char>)> {
    match h {
        Harness::Claude => Seq::empty(),
        Harness::Codex => seq![
            ("CODEX_HOME"@, home + "/"@ + CODEX_HOME_SUFFIX@),
            ("CMUX_CODEX_HOOKS_DISABLED"@, "1"@),
        ],
    }
}

/// The texts of a list of pairs of strings.
pub open spec fn text_pairs(v: Seq<(String, String)>) -> Seq<(Seq<char>, Seq<char>)> {
    v.map_values(|p: (String, String)| (p.0@, p.1@))
}

/// Builds the extra environment of a run of harness `h`, given the user's
/// home directory.
pub fn harness_env(h: Harness, home: &str) -> (e: Vec<(String, String)>)
    ensures
        text_pairs(e@) == harness_env_spec(h, home@),
{
    let mut e: Vec<(String, String)> = Vec::new();
    match h {
        Harness::Claude => {},
        Harness::Codex => {
            let mut v = chars_of(home);
            append_chars(&mut v, "/");
            append_chars(&mut v, CODEX_HOME_SUFFIX);
            e.push(("CODEX_HOME".to_owned(), string_of(&v)));
            e.push(("CMUX_CODEX_HOOKS_DISABLED".to_owned(), "1".to_owned()));
        },
    }
    assert(text_pairs(e@) =~= harness_env_spec(h, home@));
    e
}

/// Every shell command is counted once. A command that names the project
/// tree (an integrity marker, in any case) is recorded as a violation as long
/// as fewer than `MAX_VIOLATIONS` are recorded, and only then; recorded
/// violations are never dropped or changed; a technique flag, once set,
/// stays set; and the largest frame count never goes down.
pub proof fn law_scan_records_markers(b: BehaviorState, cmd: Seq<char>)
    requires
        b.shell_commands < u32::MAX,
    ensures
        ({
            let b2 = scan_step(b, cmd);
            &&& b2.shell_commands == b.shell_commands + 1
            &&& b2.integrity_violations.take(b.integrity_violations.len() as int) == b.integrity_violations
            &&& (b2.integrity_violations.len() == b.integrity_violations.len() + 1) == (first_marker(
                lowercase(cmd),
            ) is Some && b.integrity_violations.len() < MAX_VIOLATIONS)
            &&& (b2.integrity_violations.len() == b.integrity_violations.len()) == !(first_marker(
                lowercase(cmd),
            ) is Some && b.integrity_violations.len() < MAX_VIOLATIONS)
            &&& b.used_crop ==> b2.used_crop
            &&& b.used_scale ==> b2.used_scale
            &&& b.used_frame_diff ==> b2.used_frame_diff
            &&& b.used_contrast_stretch ==> b2.used_contrast_stretch
            &&& b2.tool_calls == b.tool_calls
            &&& b2.tool_breakdown == b.tool_breakdown
            &&& b2.max_frames_extracted >= b.max_frames_extracted
        }),
{
    lemma_max_frames_bound(lowercase(cmd), lowercase(cmd).len() as int);
    let v = b.integrity_violations;
    match first_marker(lowercase(cmd)) {
        Some(k) => {
            if v.len() < MAX_VIOLATIONS {
                let e = violation_text(spec_integrity_markers()[k], cmd);
                assert(v.push(e).take(v.len() as int) =~= v);
            } else {
                assert(v.take(v.len() as int) =~= v);
            }
        },
        None => {
            assert(v.take(v.len() as int) =~= v);
        },
    }
}

/// What one shell command does to the counts and flags, by what its
/// lowercase form mentions: it is counted once; ffmpeg use once when it
/// mentions `ffmpeg` or `ffprobe`; python use once when it mentions `python`
/// or `numpy`; cropping when it mentions `crop`; scaling when it mentions
/// `scale=` or `-vf scale`; frame differencing when it mentions `tblend`,
/// `absdiff`, `difference`, `np.diff` or `frame_diff`; contrast stretching
/// when it mentions `eq=contrast`, `normalize`, `histeq`, `autolevel` or
/// `curves`. A flag once set stays set, and nothing else about tool calls
/// changes.
pub proof fn law_scan_counts(b: BehaviorState, lower: Seq<char>, cmd: Seq<char>)
    requires
        b.shell_commands < u32::MAX,
        b.ffmpeg_invocations < u32::MAX,
        b.python_invocations < u32::MAX,
    ensures
        ({
            let b2 = scan_step_lowered(b, lower, cmd);
            let has = |p: Seq<char>| has_substring(lower, p);
            &&& b2.shell_commands == b.shell_commands + 1
            &&& b2.ffmpeg_invocations == b.ffmpeg_invocations + (if has("ffmpeg"@) || has("ffprobe"@) {
                1int
            } else {
                0int
            })
            &&& b2.python_invocations == b.python_invocations + (if has("python"@) || has("numpy"@) {
                1int
            } else {
                0int
            })
            &&& b2.used_crop == (b.used_crop || has("crop"@))
            &&& b2.used_scale == (b.used_scale || has("scale="@) || has("-vf scale"@))
            &&& b2.used_frame_diff == (b.used_frame_diff || has("tblend"@) || has("absdiff"@) || has(
                "difference"@,
            ) || has("np.diff"@) || has("frame_diff"@))
            &&& b2.used_contrast_stretch == (b.used_contrast_stretch || has("eq=contrast"@) || has(
                "normalize"@,
            ) || has("histeq"@) || has("autolevel"@) || has("curves"@))
            &&& b2.turns == b.turns
            &&& b2.tool_calls == b.tool_calls
            &&& b2.tool_breakdown == b.tool_breakdown
            &&& b2.images_read == b.images_read
            &&& b2.max_frames_extracted >= b.max_frames_extracted
        }),
{
    lemma_max_frames_bound(lower, lower.len() as int);
}

/// A command names the project tree exactly when its lowercase form
/// mentions `glyphhunt`, `ground_truth`, `base_montage` or `developer/t3`.
/// While fewer than 20 violations are recorded, such a command adds one
/// record: the first of those markers it mentions (in that order), in
/// brackets, a space, and the first 240 characters of the command as typed.
pub proof fn law_integrity_record(b: BehaviorState, lower: Seq<char>, cmd: Seq<char>)
    requires
        b.shell_commands < u32::MAX,
        b.ffmpeg_invocations < u32::MAX,
        b.python_invocations < u32::MAX,
    ensures
        ({
            let b2 = scan_step_lowered(b, lower, cmd);
            let v = b.integrity_violations;
            let has = |p: Seq<char>| has_substring(lower, p);
            let hit = has("glyphhunt"@) || has("ground_truth"@) || has("base_montage"@) || has(
                "developer/t3"@,
            );
            let marker = if has("glyphhunt"@) {
                "glyphhunt"@
            } else if has("ground_truth"@) {
                "ground_truth"@
            } else if has("base_montage"@) {
                "base_montage"@
            } else {
                "developer/t3"@
            };
            let keep = if cmd.len() < 240 { cmd.len() as int } else { 240 };
            &&& (hit && v.len() < 20) ==> b2.integrity_violations == v.push(
                seq!['['] + marker + seq![']', ' '] + cmd.take(keep),
            )
            &&& !(hit && v.len() < 20) ==> b2.integrity_violations == v
        }),
{
    reveal_strlit("glyphhunt");
    reveal_strlit("ground_truth");
    reveal_strlit("base_montage");
    reveal_strlit("developer/t3");
    assert("glyphhunt"@ =~= spec_integrity_markers()[0]);
    assert("ground_truth"@ =~= spec_integrity_markers()[1]);
    assert("base_montage"@ =~= spec_integrity_markers()[2]);
    assert("developer/t3"@ =~= spec_integrity_markers()[3]);
}

/// The watchdog kills a run exactly when no event has arrived for at least
/// ten minutes (600 seconds); a clock that reads earlier than the last
/// event is never stuck.
pub proof fn law_stalled(now_secs: u64, last_event_secs: u64)
    ensures
        stalled_at(now_secs, last_event_secs) == (now_secs >= last_event_secs + 600),
{
}

/// In a tally with distinct names, the entry of name `k` is the one at `j`.
proof fn lemma_key_index_at(t: Seq<(Seq<char>, u32)>, k: Seq<char>, j: int)
    requires
        distinct_keys(t),
        0 <= j < t.len(),
        t[j].0 == k,
    ensures
        key_index(t, k) == Some(j),
        count_of(t, k) == t[j].1,
{
    let c = choose|i: int| 0 <= i < t.len() && t[i].0 == k;
    if c != j {
        if c < j {
            assert(t[c].0 != t[j].0);
        } else {
            assert(t[j].0 != t[c].0);
        }
    }
}

/// A name that no entry has counts zero.
proof fn lemma_count_absent(t: Seq<(Seq<char>, u32)>, k: Seq<char>)
    requires
        forall|j: int| 0 <= j < t.len() ==> t[j].0 != k,
    ensures
        count_of(t, k) == 0,
{
}

/// One more use of tool `k` counts one more call of `k` and changes no
/// other tool's count, and the tally keeps its names distinct and sorted.
pub proof fn law_bumped(t: Seq<(Seq<char>, u32)>, k: Seq<char>, other: Seq<char>)
    requires
        distinct_keys(t),
        keys_sorted(t),
        count_of(t, k) < u32::MAX,
        other != k,
    ensures
        count_of(bumped(t, k), k) == count_of(t, k) + 1,
        count_of(bumped(t, k), other) == count_of(t, other),
        distinct_keys(bumped(t, k)),
        keys_sorted(bumped(t, k)),
{
    match key_index(t, k) {
        Some(i) => {
            let t2 = bumped(t, k);
            assert(t[i].0 == k);
            assert forall|a: int, b: int| 0 <= a < b < t2.len() implies t2[a].0 != t2[b].0 && lex_lt(t2[a].0, t2[b].0) by {
                assert(t2[a].0 == t[a].0 && t2[b].0 == t[b].0);
            }
            lemma_key_index_at(t2, k, i);
            if exists|j: int| 0 <= j < t.len() && t[j].0 == other {
                let j = choose|j: int| 0 <= j < t.len() && t[j].0 == other;
                lemma_key_index_at(t, other, j);
                lemma_key_index_at(t2, other, j);
            } else {
                assert forall|j: int| 0 <= j < t2.len() implies t2[j].0 != other by {
                    assert(t2[j].0 == t[j].0);
                }
            }
        },
        None => {
            lemma_slot_exists(t, k);
            let p = slot_of(t, k);
            let t2 = bumped(t, k);
            assert(t2 == t.insert(p, (k, 1u32)));
            lemma_insert_sorted(t, k, p, 1u32);
            lemma_key_index_at(t2, k, p);
            if exists|j: int| 0 <= j < t.len() && t[j].0 == other {
                let j = choose|j: int| 0 <= j < t.len() && t[j].0 == other;
                lemma_key_index_at(t, other, j);
                if j < p {
                    assert(t2[j] == t[j]);
                    lemma_key_index_at(t2, other, j);
                } else {
                    assert(t2[j + 1] == t[j]);
                    lemma_key_index_at(t2, other, j + 1);
                }
            } else {
                assert forall|j: int| 0 <= j < t2.len() implies t2[j].0 != other by {
                    if j < p {
                        assert(t2[j] == t[j]);
                    } else if j > p {
                        assert(t2[j] == t[j - 1]);
                    }
                }
            }
        },
    }
}

/// The rates set with `-r` in the first `n` characters are exactly the
/// values of the `-r` options written there, in order of position.
pub proof fn law_r_rates(s: Seq<char>, n: int)
    requires
        0 <= n,
    ensures
        forall|i: int| 0 <= i < n && (#[trigger] option_value(s, i, "-r"@)) is Some ==> r_rates(s, n).contains(
            option_value(s, i, "-r"@).unwrap(),
        ),
        forall|v: Seq<char>| #[trigger] r_rates(s, n).contains(v) ==> exists|i: int|
            0 <= i < n && option_value(s, i, "-r"@) == Some(v),
    decreases n,
{
    if n > 0 {
        law_r_rates(s, n - 1);
        let r = r_rates(s, n - 1);
        match option_value(s, n - 1, "-r"@) {
            Some(v) => {
                assert(r_rates(s, n) == r.push(v));
                assert forall|i: int| 0 <= i < n && (#[trigger] option_value(s, i, "-r"@)) is Some implies r_rates(
                    s,
                    n,
                ).contains(option_value(s, i, "-r"@).unwrap()) by {
                    if i < n - 1 {
                        let w = option_value(s, i, "-r"@).unwrap();
                        let k = choose|k: int| 0 <= k < r.len() && r[k] == w;
                        assert(r.push(v)[k] == w);
                    } else {
                        assert(r.push(v)[r.len() as int] == v);
                    }
                }
                assert forall|w: Seq<char>| #[trigger] r_rates(s, n).contains(w) implies exists|i: int|
                    0 <= i < n && option_value(s, i, "-r"@) == Some(w) by {
                    let k = choose|k: int| 0 <= k < r.push(v).len() && r.push(v)[k] == w;
                    if k < r.len() {
                        assert(r[k] == w);
                        assert(r.contains(w));
                    } else {
                        assert(option_value(s, n - 1, "-r"@) == Some(w));
                    }
                }
            },
            None => {
                assert(r_rates(s, n) == r);
            },
        }
    }
}

/// Appending values under a cap: all of them when they fit, else as many as
/// fit, in order; nothing when the list is already full.
pub proof fn law_push_capped(acc: Seq<Seq<char>>, vals: Seq<Seq<char>>, cap: nat)
    ensures
        acc.len() + vals.len() <= cap ==> push_capped(acc, vals, cap) == acc + vals,
        acc.len() < cap && acc.len() + vals.len() > cap ==> push_capped(acc, vals, cap) == acc + vals.take(
            cap - acc.len(),
        ),
        acc.len() >= cap ==> push_capped(acc, vals, cap) == acc,
    decreases vals.len(),
{
    if vals.len() > 0 {
        let d = vals.drop_last();
        law_push_capped(acc, d, cap);
        if acc.len() + vals.len() <= cap {
            assert(acc + d.push(vals.last()) =~= (acc + d).push(vals.last()));
            assert(d.push(vals.last()) =~= vals);
        } else if acc.len() < cap {
            if acc.len() + d.len() <= cap {
                assert(acc.len() + d.len() == cap);
                assert(vals.take(cap - acc.len()) =~= d);
            } else {
                assert(d.take(cap - acc.len()) =~= vals.take(cap - acc.len()));
            }
        }
    }
}

/// The largest count over the first `n` characters is at least each count
/// asked for there, and is one of them (or zero when none is).
proof fn lemma_max_frames(s: Seq<char>, n: int)
    requires
        0 <= n,
    ensures
        forall|i: int| 0 <= i < n ==> max_frames_upto(s, n) >= #[trigger] frame_count_at(s, i),
        max_frames_upto(s, n) == 0 || exists|i: int| 0 <= i < n && max_frames_upto(s, n) == frame_count_at(s, i),
    decreases n,
{
    if n > 0 {
        lemma_max_frames(s, n - 1);
    }
}

/// The value of a number of frames given at index `i` with any of the three
/// spellings is what the count at `i` takes.
proof fn lemma_frame_spellings(s: Seq<char>, i: int)
    ensures
        option_value(s, i, "-frames"@) matches Some(v) ==> frame_count_at(s, i) == count_text(v),
        option_value(s, i, "-frames:v"@) matches Some(v) ==> frame_count_at(s, i) == count_text(v),
        option_value(s, i, "-vframes"@) matches Some(v) ==> frame_count_at(s, i) == count_text(v),
{
    reveal_strlit("-frames");
    reveal_strlit("-frames:v");
    reveal_strlit("-vframes");
    if option_value(s, i, "-frames:v"@) is Some {
        assert(s.subrange(i, i + 9)[7] == s[i + 7]);
        assert(s[i + 7] == ':');
    }
    if option_value(s, i, "-vframes"@) is Some {
        assert(s.subrange(i, i + 8)[1] == s[i + 1]);
        assert(s[i + 1] == 'v');
        if option_value(s, i, "-frames"@) is Some {
            assert(s.subrange(i, i + 7)[1] == s[i + 1]);
        }
        if option_value(s, i, "-frames:v"@) is Some {
            assert(s.subrange(i, i + 9)[1] == s[i + 1]);
        }
    }
}

/// The largest frame count a command asks for: at least the `N` of every
/// `-frames N`, `-frames:v N` or `-vframes N` it contains (when `N` is a
/// decimal number that fits in a `u64`), and either one of those numbers or
/// zero. After the command, the run's largest frame count is the larger of
/// its old value and this one.
pub proof fn law_frame_counts(b: BehaviorState, lower: Seq<char>, cmd: Seq<char>)
    ensures
        ({
            let n = lower.len() as int;
            let m = max_frames_upto(lower, n);
            let b2 = scan_step_lowered(b, lower, cmd);
            &&& forall|i: int, name: Seq<char>|
                0 <= i < n && (name == "-frames"@ || name == "-frames:v"@ || name == "-vframes"@) && (
                #[trigger] option_value(lower, i, name) matches Some(v) && all_digits(v) && digits_value(v) <= u64::MAX)
                    ==> m >= digits_value(option_value(lower, i, name).unwrap())
            &&& m == 0 || exists|i: int, name: Seq<char>|
                0 <= i < n && (name == "-frames"@ || name == "-frames:v"@ || name == "-vframes"@) && (
                #[trigger] option_value(lower, i, name) matches Some(v) && all_digits(v) && digits_value(v) <= u64::MAX
                    && m == digits_value(v))
            &&& b2.max_frames_extracted == (if m > b.max_frames_extracted {
                m
            } else {
                b.max_frames_extracted as nat
            })
        }),
{
    let n = lower.len() as int;
    lemma_max_frames(lower, n);
    lemma_max_frames_bound(lower, n);
    assert forall|i: int, name: Seq<char>|
        0 <= i < n && (name == "-frames"@ || name == "-frames:v"@ || name == "-vframes"@) && (
        #[trigger] option_value(lower, i, name) matches Some(v) && all_digits(v) && digits_value(v) <= u64::MAX)
            implies max_frames_upto(lower, n) >= digits_value(option_value(lower, i, name).unwrap()) by {
        lemma_frame_spellings(lower, i);
        assert(max_frames_upto(lower, n) >= frame_count_at(lower, i));
    }
    let m = max_frames_upto(lower, n);
    if m != 0 {
        let i = choose|i: int| 0 <= i < n && m == frame_count_at(lower, i);
        lemma_frame_spellings(lower, i);
        if option_value(lower, i, "-frames"@) is Some {
            let v = option_value(lower, i, "-frames"@).unwrap();
            assert(option_value(lower, i, "-frames"@) matches Some(v) && all_digits(v) && digits_value(v) <= u64::MAX && m == digits_value(v));
        } else if option_value(lower, i, "-frames:v"@) is Some {
            let v = option_value(lower, i, "-frames:v"@).unwrap();
            assert(option_value(lower, i, "-frames:v"@) matches Some(v) && all_digits(v) && digits_value(v) <= u64::MAX && m == digits_value(v));
        } else {
            let v = option_value(lower, i, "-vframes"@).unwrap();
            assert(option_value(lower, i, "-vframes"@) matches Some(v) && all_digits(v) && digits_value(v) <= u64::MAX && m == digits_value(v));
        }
    }
}

/// The rates named by `fps=` tokens are exactly the texts after `fps=` of
/// the tokens that start with it and go on after it.
pub proof fn law_fps_values(parts: Seq<Seq<char>>)
    ensures
        forall|k: int| 0 <= k < parts.len() && has_prefix(#[trigger] parts[k], "fps="@) && parts[k].len() > 4
            ==> fps_values(parts).contains(parts[k].skip(4)),
        forall|v: Seq<char>| #[trigger] fps_values(parts).contains(v) ==> exists|k: int|
            0 <= k < parts.len() && has_prefix(parts[k], "fps="@) && parts[k].len() > 4 && v == parts[k].skip(4),
    decreases parts.len(),
{
    if parts.len() > 0 {
        let d = parts.drop_last();
        law_fps_values(d);
        let r = fps_values(d);
        let p = parts.last();
        if has_prefix(p, "fps="@) && p.len() > 4 {
            assert(fps_values(parts) == r.push(p.skip(4)));
            assert forall|k: int| 0 <= k < parts.len() && has_prefix(#[trigger] parts[k], "fps="@) && parts[k].len() > 4
                implies fps_values(parts).contains(parts[k].skip(4)) by {
                if k < d.len() {
                    assert(d[k] == parts[k]);
                    let j = choose|j: int| 0 <= j < r.len() && r[j] == d[k].skip(4);
                    assert(r.push(p.skip(4))[j] == parts[k].skip(4));
                } else {
                    assert(r.push(p.skip(4))[r.len() as int] == p.skip(4));
                }
            }
            assert forall|v: Seq<char>| #[trigger] fps_values(parts).contains(v) implies exists|k: int|
                0 <= k < parts.len() && has_prefix(parts[k], "fps="@) && parts[k].len() > 4 && v == parts[k].skip(4) by {
                let j = choose|j: int| 0 <= j < r.push(p.skip(4)).len() && r.push(p.skip(4))[j] == v;
                if j < r.len() {
                    assert(r[j] == v);
                    assert(r.contains(v));
                    let k = choose|k: int| 0 <= k < d.len() && has_prefix(d[k], "fps="@) && d[k].len() > 4 && v == d[k].skip(4);
                    assert(d[k] == parts[k]);
                } else {
                    assert(parts[parts.len() - 1] == p);
                }
            }
        } else {
            assert(fps_values(parts) == r);
            assert forall|k: int| 0 <= k < parts.len() && has_prefix(#[trigger] parts[k], "fps="@) && parts[k].len() > 4
                implies fps_values(parts).contains(parts[k].skip(4)) by {
                if k < d.len() {
                    assert(d[k] == parts[k]);
                }
            }
            assert forall|v: Seq<char>| #[trigger] fps_values(parts).contains(v) implies exists|k: int|
                0 <= k < parts.len() && has_prefix(parts[k], "fps="@) && parts[k].len() > 4 && v == parts[k].skip(4) by {
                let k = choose|k: int| 0 <= k < d.len() && has_prefix(d[k], "fps="@) && d[k].len() > 4 && v == d[k].skip(4);
                assert(d[k] == parts[k]);
            }
        }
    }
}

} // verus!

//! The two harnesses' event streams, and what each event changes in a run's
//! record.
//!
//! An event arrives as one line of JSON. Its fields are read into the plain
//! types below (a missing field, or one of another JSON type, reads as
//! `None`); the functions here decide what the event means.

use vstd::prelude::*;
use crate::runner::{
    behavior_wf, bump_tool, law_scan_counts, lemma_insert_sorted, lemma_slot_exists, lemma_tally_sum_insert, lemma_tally_sum_update, slot_of, tally_sum, bumped, count_of, key_index, scan_command, scan_step, BehaviorState,
    RunOutput, RunOutputState, Usage,
};
use crate::text::{chars_of, ends_with_chars, has_suffix, lowercase, str_eq, to_lowercase};

verus! {

/// One entry of an assistant message of the `stream-json` harness.
#[derive(Debug, Clone)]
pub struct ClaudeContent {
    /// `type`
    pub kind: Option<String>,
    /// `name` of a tool use
    pub name: Option<String>,
    /// `input.command` of a tool use
    pub command: Option<String>,
    /// `input.file_path` of a tool use
    pub file_path: Option<String>,
    /// `text` of a text entry
    pub text: Option<String>,
}

/// The `usage` object of a `stream-json` result event.
#[derive(Debug, Clone, Copy)]
pub struct ClaudeUsage {
    pub input_tokens: Option<u64>,
    pub cache_read_input_tokens: Option<u64>,
    pub output_tokens: Option<u64>,
}

/// One event of the `stream-json` harness's output.
#[derive(Debug, Clone)]
pub struct ClaudeEvent {
    /// `type`
    pub kind: Option<String>,
    /// `message.content`, when it is an array
    pub content: Option<Vec<ClaudeContent>>,
    /// `duration_api_ms`
    pub duration_api_ms: Option<u64>,
    /// `num_turns`
    pub num_turns: Option<u64>,
    /// `usage`, when present at all
    pub usage: Option<ClaudeUsage>,
    /// `result`
    pub result: Option<String>,
}

/// The `item` of a Codex item event.
#[derive(Debug, Clone)]
pub struct CodexItem {
    /// `type`
    pub kind: Option<String>,
    /// `command` of a command execution
    pub command: Option<String>,
    /// `text` of an agent message
    pub text: Option<String>,
}

/// The `usage` object of a Codex `turn.completed` event.
#[derive(Debug, Clone, Copy)]
pub struct CodexUsage {
    pub input_tokens: Option<u64>,
    pub cached_input_tokens: Option<u64>,
    pub output_tokens: Option<u64>,
    pub reasoning_output_tokens: Option<u64>,
}

/// One event of the Codex harness's `--json` output.
#[derive(Debug, Clone)]
pub struct CodexEvent {
    /// `type`
    pub kind: Option<String>,
    /// `item`, when present at all
    pub item: Option<CodexItem>,
    /// `message`
    pub message: Option<String>,
    /// `error.message`
    pub error_message: Option<String>,
    /// `usage`, when present at all
    pub usage: Option<CodexUsage>,
}

/// `k` is present and reads `lit`.
pub open spec fn text_is(k: Option<String>, lit: Seq<char>) -> bool {
    k matches Some(s) && s@ == lit
}

/// The value, or zero when absent.
pub open spec fn or_zero(v: Option<u64>) -> u64 {
    match v {
        Some(x) => x,
        None => 0,
    }
}

/// A lowercase path that ends in an image extension.
pub open spec fn image_suffix(l: Seq<char>) -> bool {
    has_suffix(l, ".png"@) || has_suffix(l, ".jpg"@) || has_suffix(l, ".jpeg"@) || has_suffix(
        l,
        ".webp"@,
    )
}

/// A path whose lowercase form ends in an image extension.
pub open spec fn is_image_path(p: Seq<char>) -> bool {
    image_suffix(lowercase(p))
}

/// The behaviour after one more call of tool `name`.
pub open spec fn tool_used(b: BehaviorState, name: Seq<char>) -> BehaviorState {
    BehaviorState {
        tool_calls: (b.tool_calls + 1) as u32,
        tool_breakdown: bumped(b.tool_breakdown, name),
        ..b
    }
}

/// The behaviour after one more image was read.
pub open spec fn image_read(b: BehaviorState) -> BehaviorState {
    BehaviorState { images_read: (b.images_read + 1) as u32, ..b }
}

/// The tool name of a `stream-json` tool use (`?` when it has none).
pub open spec fn tool_name(c: ClaudeContent) -> Seq<char> {
    match c.name {
        Some(n) => n@,
        None => "?"@,
    }
}

/// What one entry of an assistant message changes.
pub open spec fn claude_item_step(o: RunOutputState, c: ClaudeContent) -> RunOutputState {
    if text_is(c.kind, "tool_use"@) {
        let name = tool_name(c);
        let b1 = tool_used(o.behavior, name);
        let b2 = match c.command {
            Some(cmd) => if name == "Bash"@ {
                scan_step(b1, cmd@)
            } else {
                b1
            },
            None => b1,
        };
        let b3 = match c.file_path {
            Some(p) => if name == "Read"@ && is_image_path(p@) {
                image_read(b2)
            } else {
                b2
            },
            None => b2,
        };
        RunOutputState { behavior: b3, ..o }
    } else if text_is(c.kind, "text"@) {
        match c.text {
            Some(t) => RunOutputState { final_message: t@, ..o },
            None => o,
        }
    } else {
        o
    }
}

/// What the entries of an assistant message change, in order.
pub open spec fn claude_items_step(o: RunOutputState, items: Seq<ClaudeContent>) -> RunOutputState
    decreases items.len(),
{
    if items.len() == 0 {
        o
    } else {
        claude_item_step(claude_items_step(o, items.drop_last()), items.last())
    }
}

/// What one event of the `stream-json` harness changes in the run's record.
pub open spec fn claude_step(o: RunOutputState, e: ClaudeEvent) -> RunOutputState {
    if text_is(e.kind, "assistant"@) {
        match e.content {
            Some(items) => claude_items_step(o, items@),
            None => o,
        }
    } else if text_is(e.kind, "result"@) {
        let usage1 = Usage { api_duration_ms: e.duration_api_ms, ..o.usage };
        let usage2 = match e.usage {
            Some(u) => Usage {
                input_tokens: or_zero(u.input_tokens),
                cached_input_tokens: or_zero(u.cache_read_input_tokens),
                output_tokens: or_zero(u.output_tokens),
                ..usage1
            },
            None => usage1,
        };
        let turns: u32 = match e.num_turns {
            Some(n) => n as u32,
            None => 0,
        };
        let message = match e.result {
            Some(r) => if r@.len() > 0 {
                r@
            } else {
                o.final_message
            },
            None => o.final_message,
        };
        RunOutputState {
            usage: usage2,
            final_message: message,
            behavior: BehaviorState { turns: turns, ..o.behavior },
            ..o
        }
    } else {
        o
    }
}

/// Room for `n` more increments of every counter an event can raise.
pub open spec fn room_for(b: BehaviorState, n: int) -> bool {
    &&& b.tool_calls + n <= u32::MAX
    &&& b.shell_commands + n <= u32::MAX
    &&& b.ffmpeg_invocations + n <= u32::MAX
    &&& b.python_invocations + n <= u32::MAX
    &&& b.images_read + n <= u32::MAX
}

/// The number of entries of a `stream-json` event's message.
pub open spec fn claude_len(e: ClaudeEvent) -> int {
    match e.content {
        Some(items) => items@.len() as int,
        None => 0,
    }
}

/// One more use of a tool keeps the behaviour well formed.
proof fn lemma_tool_used_wf(b: BehaviorState, name: Seq<char>)
    requires
        behavior_wf(b),
        b.tool_calls < u32::MAX,
    ensures
        behavior_wf(tool_used(b, name)),
        count_of(b.tool_breakdown, name) <= b.tool_calls,
{
    let t = b.tool_breakdown;
    match key_index(t, name) {
        Some(i) => {
            assert(t[i].1 <= b.tool_calls);
            let t2 = bumped(t, name);
            assert forall|j: int, k: int| 0 <= j < k < t2.len() implies t2[j].0 != t2[k].0 by {
                assert(t[j].0 != t[k].0);
            }
            assert forall|j: int| 0 <= j < t2.len() implies #[trigger] t2[j].1 <= b.tool_calls + 1 by {
                assert(t[j].1 <= b.tool_calls);
            }
            lemma_tally_sum_update(t, i, (name, (t[i].1 + 1) as u32));
        },
        None => {
            lemma_slot_exists(t, name);
            let p = slot_of(t, name);
            let t2 = bumped(t, name);
            assert(t2 == t.insert(p, (name, 1u32)));
            lemma_insert_sorted(t, name, p, 1u32);
            assert forall|j: int| 0 <= j < t2.len() implies #[trigger] t2[j].1 <= b.tool_calls + 1 by {
                if j < p {
                    assert(t2[j] == t[j]);
                } else if j > p {
                    assert(t2[j] == t[j - 1]);
                }
            }
            lemma_tally_sum_insert(t, p, (name, 1u32));
        },
    }
}

/// Whether a file path names an image.
fn is_image(p: &str) -> (r: bool)
    ensures
        r == is_image_path(p@),
{
    let l = to_lowercase(p);
    let lv = chars_of(l.as_str());
    has_image_suffix(&lv)
}

/// Whether a lowercase path ends in an image extension.
pub fn has_image_suffix(l: &Vec<char>) -> (r: bool)
    ensures
        r == image_suffix(l@),
{
    ends_with_chars(l, &chars_of(".png")) || ends_with_chars(l, &chars_of(".jpg"))
        || ends_with_chars(l, &chars_of(".jpeg")) || ends_with_chars(l, &chars_of(".webp"))
}

/// Applies one entry of an assistant message.
fn claude_item(c: &ClaudeContent, out: &mut RunOutput)
    requires
        behavior_wf(old(out)@.behavior),
        room_for(old(out)@.behavior, 1),
    ensures
        final(out)@ == claude_item_step(old(out)@, *c),
        behavior_wf(final(out)@.behavior),
{
    proof {
        reveal_strlit("?");
    }
    if c.kind.is_some() && str_eq(c.kind.as_ref().unwrap().as_str(), "tool_use") {
        let name: String = match &c.name {
            Some(n) => n.clone(),
            None => String::from_str("?"),
        };
        proof {
            lemma_tool_used_wf(out@.behavior, name@);
        }
        out.behavior.tool_calls += 1;
        bump_tool(&mut out.behavior.tool_breakdown, name.as_str());
        let is_bash = str_eq(name.as_str(), "Bash");
        if is_bash {
            match &c.command {
                Some(cmd) => scan_command(cmd.as_str(), &mut out.behavior),
                None => {},
            }
        }
        let is_read = str_eq(name.as_str(), "Read");
        if is_read {
            match &c.file_path {
                Some(p) => {
                    if is_image(p.as_str()) {
                        out.behavior.images_read += 1;
                    }
                },
                None => {},
            }
        }
    } else if c.kind.is_some() && str_eq(c.kind.as_ref().unwrap().as_str(), "text") {
        match &c.text {
            Some(t) => {
                out.final_message = t.clone();
            },
            None => {},
        }
    }
}

/// Applies one event of the `stream-json` harness to the run's record.
pub fn parse_claude_event(e: &ClaudeEvent, out: &mut RunOutput)
    requires
        behavior_wf(old(out)@.behavior),
        room_for(old(out)@.behavior, claude_len(*e)),
    ensures
        final(out)@ == claude_step(old(out)@, *e),
        behavior_wf(final(out)@.behavior),
{
    if e.kind.is_some() && str_eq(e.kind.as_ref().unwrap().as_str(), "assistant") {
        match &e.content {
            Some(items) => {
                let ghost o0 = out@;
                let n = items.len();
                let mut i: usize = 0;
                while i < n
                    invariant
                        n == items@.len(),
                        i <= n,
                        out@ == claude_items_step(o0, items@.take(i as int)),
                        behavior_wf(out@.behavior),
                        room_for(out@.behavior, n - i),
                    decreases n - i,
                {
                    proof {
                        assert(items@.take(i + 1).drop_last() =~= items@.take(i as int));
                    }
                    claude_item(&items[i], out);
                    i += 1;
                }
                assert(items@.take(n as int) =~= items@);
            },
            None => {},
        }
    } else if e.kind.is_some() && str_eq(e.kind.as_ref().unwrap().as_str(), "result") {
        out.usage.api_duration_ms = e.duration_api_ms;
        out.behavior.turns = match e.num_turns {
            Some(n) => n as u32,
            None => 0,
        };
        match &e.usage {
            Some(u) => {
                out.usage.input_tokens = match u.input_tokens {
                    Some(x) => x,
                    None => 0,
                };
                out.usage.cached_input_tokens = match u.cache_read_input_tokens {
                    Some(x) => x,
                    None => 0,
                };
                out.usage.output_tokens = match u.output_tokens {
                    Some(x) => x,
                    None => 0,
                };
            },
            None => {},
        }
        match &e.result {
            Some(r) => {
                if r.unicode_len() > 0 {
                    out.final_message = r.clone();
                }
            },
            None => {},
        }
    }
}

/// The text of an optional string, or the empty text.
pub open spec fn or_empty(k: Option<String>) -> Seq<char> {
    match k {
        Some(s) => s@,
        None => Seq::empty(),
    }
}

/// What a completed Codex item changes.
pub open spec fn codex_item_step(o: RunOutputState, item: CodexItem) -> RunOutputState {
    let itype = or_empty(item.kind);
    if itype == "command_execution"@ {
        let b1 = tool_used(o.behavior, "shell"@);
        let b2 = match item.command {
            Some(c) => scan_step(b1, c@),
            None => b1,
        };
        RunOutputState { behavior: b2, ..o }
    } else if itype == "agent_message"@ {
        match item.text {
            Some(t) => RunOutputState { final_message: t@, ..o },
            None => o,
        }
    } else {
        let b1 = if itype.len() > 0 && itype != "reasoning"@ {
            tool_used(o.behavior, itype)
        } else {
            o.behavior
        };
        let b2 = if itype == "view_image"@ {
            image_read(b1)
        } else {
            b1
        };
        RunOutputState { behavior: b2, ..o }
    }
}

/// What one event of the Codex harness changes in the run's record. Items
/// are counted once, at completion; quota exhaustion arrives as an error event
/// and becomes the final message.
pub open spec fn codex_step(o: RunOutputState, e: CodexEvent) -> RunOutputState {
    let ty = or_empty(e.kind);
    if ty == "item.completed"@ || ty == "item.started"@ {
        match e.item {
            Some(item) => if ty == "item.started"@ {
                o
            } else {
                codex_item_step(o, item)
            },
            None => o,
        }
    } else if ty == "error"@ || ty == "turn.failed"@ {
        let msg = match e.message {
            Some(m) => Some(m),
            None => e.error_message,
        };
        match msg {
            Some(m) => RunOutputState { final_message: m@, ..o },
            None => o,
        }
    } else if ty == "turn.completed"@ {
        let b = BehaviorState { turns: (o.behavior.turns + 1) as u32, ..o.behavior };
        let u = match e.usage {
            Some(u) => Usage {
                input_tokens: (o.usage.input_tokens + or_zero(u.input_tokens)) as u64,
                cached_input_tokens: (o.usage.cached_input_tokens + or_zero(
                    u.cached_input_tokens,
                )) as u64,
                output_tokens: (o.usage.output_tokens + or_zero(u.output_tokens)) as u64,
                reasoning_tokens: (o.usage.reasoning_tokens + or_zero(
                    u.reasoning_output_tokens,
                )) as u64,
                ..o.usage
            },
            None => o.usage,
        };
        RunOutputState { behavior: b, usage: u, ..o }
    } else {
        o
    }
}

/// The token counts of a `turn.completed` event can be added without
/// overflow.
pub open spec fn codex_usage_fits(u0: Usage, e: CodexEvent) -> bool {
    e.usage matches Some(u) ==> {
        &&& u0.input_tokens + or_zero(u.input_tokens) <= u64::MAX
        &&& u0.cached_input_tokens + or_zero(u.cached_input_tokens) <= u64::MAX
        &&& u0.output_tokens + or_zero(u.output_tokens) <= u64::MAX
        &&& u0.reasoning_tokens + or_zero(u.reasoning_output_tokens) <= u64::MAX
    }
}

/// The value, or zero when absent.
fn value_or_zero(v: Option<u64>) -> (r: u64)
    ensures
        r == or_zero(v),
{
    match v {
        Some(x) => x,
        None => 0,
    }
}

/// Applies a completed Codex item.
fn codex_item(item: &CodexItem, out: &mut RunOutput)
    requires
        behavior_wf(old(out)@.behavior),
        room_for(old(out)@.behavior, 1),
    ensures
        final(out)@ == codex_item_step(old(out)@, *item),
        behavior_wf(final(out)@.behavior),
{
    let itype: String = match &item.kind {
        Some(k) => k.clone(),
        None => String::new(),
    };
    proof {
        reveal_strlit("shell");
    }
    if str_eq(itype.as_str(), "command_execution") {
        proof {
            lemma_tool_used_wf(out@.behavior, "shell"@);
        }
        out.behavior.tool_calls += 1;
        bump_tool(&mut out.behavior.tool_breakdown, "shell");
        match &item.command {
            Some(cmd) => scan_command(cmd.as_str(), &mut out.behavior),
            None => {},
        }
    } else if str_eq(itype.as_str(), "agent_message") {
        match &item.text {
            Some(t) => {
                out.final_message = t.clone();
            },
            None => {},
        }
    } else {
        if itype.unicode_len() > 0 && !str_eq(itype.as_str(), "reasoning") {
            proof {
                lemma_tool_used_wf(out@.behavior, itype@);
            }
            out.behavior.tool_calls += 1;
            bump_tool(&mut out.behavior.tool_breakdown, itype.as_str());
        }
        if str_eq(itype.as_str(), "view_image") {
            out.behavior.images_read += 1;
        }
    }
}

/// Applies one event of the Codex harness to the run's record.
pub fn parse_codex_event(e: &CodexEvent, out: &mut RunOutput)
    requires
        behavior_wf(old(out)@.behavior),
        room_for(old(out)@.behavior, 1),
        old(out)@.behavior.turns < u32::MAX,
        codex_usage_fits(old(out)@.usage, *e),
    ensures
        final(out)@ == codex_step(old(out)@, *e),
        behavior_wf(final(out)@.behavior),
{
    let ty: String = match &e.kind {
        Some(k) => k.clone(),
        None => String::new(),
    };
    let completed = str_eq(ty.as_str(), "item.completed");
    let started = str_eq(ty.as_str(), "item.started");
    if completed || started {
        match &e.item {
            Some(item) => {
                // Only count each item once, at completion.
                if !started {
                    codex_item(item, out);
                }
            },
            None => {},
        }
    } else if str_eq(ty.as_str(), "error") || str_eq(ty.as_str(), "turn.failed") {
        let msg: Option<&String> = match &e.message {
            Some(m) => Some(m),
            None => e.error_message.as_ref(),
        };
        match msg {
            Some(m) => {
                out.final_message = m.clone();
            },
            None => {},
        }
    } else if str_eq(ty.as_str(), "turn.completed") {
        out.behavior.turns += 1;
        match &e.usage {
            Some(u) => {
                out.usage.input_tokens = out.usage.input_tokens + value_or_zero(u.input_tokens);
                out.usage.cached_input_tokens = out.usage.cached_input_tokens + value_or_zero(
                    u.cached_input_tokens,
                );
                out.usage.output_tokens = out.usage.output_tokens + value_or_zero(u.output_tokens);
                out.usage.reasoning_tokens = out.usage.reasoning_tokens + value_or_zero(
                    u.reasoning_output_tokens,
                );
            },
            None => {},
        }
    }
}

/// Items are counted once, at completion: an `item.started` event changes
/// nothing in the record.
pub proof fn law_started_items_change_nothing(o: RunOutputState, e: CodexEvent)
    requires
        text_is(e.kind, "item.started"@),
    ensures
        codex_step(o, e) == o,
{
    reveal_strlit("item.started");
    reveal_strlit("item.completed");
    assert("item.started"@ != "item.completed"@) by {
        assert("item.started"@[5] != "item.completed"@[5]);
    }
}

/// A lowercase path names an image exactly when it ends in `.png`, `.jpg`,
/// `.jpeg` or `.webp`.
pub proof fn law_image_suffix(l: Seq<char>)
    ensures
        image_suffix(l) == (has_suffix(l, ".png"@) || has_suffix(l, ".jpg"@) || has_suffix(l, ".jpeg"@)
            || has_suffix(l, ".webp"@)),
{
}

/// A `Read` tool use counts one tool call, and one image read exactly when
/// its path, lowercased, ends in `.png`, `.jpg`, `.jpeg` or `.webp`.
pub proof fn law_read_counts_images(o: RunOutputState, c: ClaudeContent)
    requires
        text_is(c.kind, "tool_use"@),
        c.name matches Some(n) && n@ == "Read"@,
        c.file_path is Some,
        o.behavior.tool_calls < u32::MAX,
        o.behavior.images_read < u32::MAX,
    ensures
        ({
            let o2 = claude_item_step(o, c);
            let l = lowercase(c.file_path.unwrap()@);
            &&& o2.behavior.images_read == o.behavior.images_read + (if has_suffix(l, ".png"@) || has_suffix(
                l,
                ".jpg"@,
            ) || has_suffix(l, ".jpeg"@) || has_suffix(l, ".webp"@) {
                1int
            } else {
                0int
            })
            &&& o2.behavior.tool_calls == o.behavior.tool_calls + 1
        }),
{
    reveal_strlit("Read");
    reveal_strlit("Bash");
    assert("Read"@ != "Bash"@) by {
        assert("Read"@[0] != "Bash"@[0]);
    }
}

/// A Codex `turn.completed` event counts one turn and adds the tokens it
/// reports to the run's totals, each to its own: input to input, cached
/// input to cached input, output to output, reasoning output to reasoning
/// (an absent count adds nothing). Nothing else changes.
pub proof fn law_codex_turn(o: RunOutputState, e: CodexEvent)
    requires
        e.kind matches Some(k) && k@ == "turn.completed"@,
        o.behavior.turns < u32::MAX,
        codex_usage_fits(o.usage, e),
    ensures
        ({
            let o2 = codex_step(o, e);
            &&& o2.behavior.turns == o.behavior.turns + 1
            &&& o2.behavior.tool_calls == o.behavior.tool_calls
            &&& o2.final_message == o.final_message
            &&& match e.usage {
                Some(u) => {
                    &&& o2.usage.input_tokens == o.usage.input_tokens + or_zero(u.input_tokens)
                    &&& o2.usage.cached_input_tokens == o.usage.cached_input_tokens + or_zero(
                        u.cached_input_tokens,
                    )
                    &&& o2.usage.output_tokens == o.usage.output_tokens + or_zero(u.output_tokens)
                    &&& o2.usage.reasoning_tokens == o.usage.reasoning_tokens + or_zero(
                        u.reasoning_output_tokens,
                    )
                },
                None => o2.usage == o.usage,
            }
        }),
{
    reveal_strlit("turn.completed");
    reveal_strlit("item.completed");
    reveal_strlit("item.started");
    reveal_strlit("error");
    reveal_strlit("turn.failed");
    let k = or_empty(e.kind);
    assert(k != "item.completed"@) by {
        assert(k[0] != "item.completed"@[0]);
    }
    assert(k != "item.started"@) by {
        assert(k.len() != "item.started"@.len());
    }
    assert(k != "error"@) by {
        assert(k.len() != "error"@.len());
    }
    assert(k != "turn.failed"@) by {
        assert(k.len() != "turn.failed"@.len());
    }
}

/// A completed Codex command execution counts one tool call, under the tool
/// name `shell`, and one shell command when the item carries its command
/// line; its final message stays.
pub proof fn law_codex_command(o: RunOutputState, item: CodexItem)
    requires
        item.kind matches Some(k) && k@ == "command_execution"@,
        room_for(o.behavior, 1),
    ensures
        ({
            let o2 = codex_item_step(o, item);
            &&& o2.behavior.tool_calls == o.behavior.tool_calls + 1
            &&& o2.behavior.tool_breakdown == bumped(o.behavior.tool_breakdown, seq!['s', 'h', 'e', 'l', 'l'])
            &&& o2.behavior.shell_commands == o.behavior.shell_commands + (if item.command is Some {
                1int
            } else {
                0int
            })
            &&& o2.final_message == o.final_message
        }),
{
    reveal_strlit("shell");
    assert("shell"@ =~= seq!['s', 'h', 'e', 'l', 'l']);
}

/// A `stream-json` result event sets the run's token counts from its usage
/// (each from its own field, absent ones as zero; all unchanged without a
/// usage object), its API time from `duration_api_ms`, its turns from
/// `num_turns` (zero when absent), and its final message from a non-empty
/// `result`.
pub proof fn law_claude_result(o: RunOutputState, e: ClaudeEvent)
    requires
        e.kind matches Some(k) && k@ == "result"@,
    ensures
        ({
            let o2 = claude_step(o, e);
            &&& o2.usage.api_duration_ms == e.duration_api_ms
            &&& match e.usage {
                Some(u) => {
                    &&& o2.usage.input_tokens == or_zero(u.input_tokens)
                    &&& o2.usage.cached_input_tokens == or_zero(u.cache_read_input_tokens)
                    &&& o2.usage.output_tokens == or_zero(u.output_tokens)
                },
                None => {
                    &&& o2.usage.input_tokens == o.usage.input_tokens
                    &&& o2.usage.cached_input_tokens == o.usage.cached_input_tokens
                    &&& o2.usage.output_tokens == o.usage.output_tokens
                },
            }
            &&& o2.usage.reasoning_tokens == o.usage.reasoning_tokens
            &&& o2.behavior.turns == (match e.num_turns {
                Some(n) => n as u32,
                None => 0u32,
            })
            &&& o2.behavior.tool_calls == o.behavior.tool_calls
            &&& o2.final_message == (match e.result {
                Some(r) => if r@.len() > 0 {
                    r@
                } else {
                    o.final_message
                },
                None => o.final_message,
            })
        }),
{
    reveal_strlit("result");
    reveal_strlit("assistant");
    let k = e.kind.unwrap()@;
    assert(k != "assistant"@) by {
        assert(k.len() != "assistant"@.len());
    }
}

/// A `stream-json` tool use counts one tool call, under its name (`?` when it
/// has none). A `Bash` use with a command line counts one shell command, and
/// no other use does; the final message stays.
pub proof fn law_claude_tool_use(o: RunOutputState, c: ClaudeContent)
    requires
        text_is(c.kind, "tool_use"@),
        room_for(o.behavior, 1),
        behavior_wf(o.behavior),
    ensures
        ({
            let o2 = claude_item_step(o, c);
            let name = match c.name {
                Some(n) => n@,
                None => seq!['?'],
            };
            &&& o2.behavior.tool_calls == o.behavior.tool_calls + 1
            &&& o2.behavior.tool_breakdown == bumped(o.behavior.tool_breakdown, name)
            &&& o2.behavior.shell_commands == o.behavior.shell_commands + (if name == seq!['B', 'a', 's', 'h']
                && c.command is Some {
                1int
            } else {
                0int
            })
            &&& o2.final_message == o.final_message
        }),
{
    reveal_strlit("?");
    reveal_strlit("Bash");
    reveal_strlit("Read");
    assert("?"@ =~= seq!['?']);
    assert("Bash"@ =~= seq!['B', 'a', 's', 'h']);
    let name = tool_name(c);
    let b1 = tool_used(o.behavior, name);
    lemma_tool_used_wf(o.behavior, name);
    match c.command {
        Some(cmd) => if name == "Bash"@ {
            law_scan_counts(b1, lowercase(cmd@), cmd@);
        },
        None => {},
    }
}

/// A `stream-json` text entry makes its text the final message and changes
/// nothing else; another kind of entry changes nothing.
pub proof fn law_claude_text(o: RunOutputState, c: ClaudeContent)
    requires
        !text_is(c.kind, "tool_use"@),
    ensures
        text_is(c.kind, "text"@) && c.text is Some ==> claude_item_step(o, c) == (RunOutputState {
            final_message: c.text.unwrap()@,
            ..o
        }),
        !(text_is(c.kind, "text"@) && c.text is Some) ==> claude_item_step(o, c) == o,
{
}

/// A completed Codex item: an agent message makes its text the final
/// message; an item of any other kind than a command execution, a message
/// or a reasoning step counts one tool call under its kind (none when the
/// kind is missing), and a `view_image` item counts one image read too.
pub proof fn law_codex_items(o: RunOutputState, item: CodexItem)
    requires
        !(item.kind matches Some(k) && k@ == "command_execution"@),
        room_for(o.behavior, 1),
    ensures
        ({
            let o2 = codex_item_step(o, item);
            let k = or_empty(item.kind);
            &&& k == "agent_message"@ ==> o2 == (match item.text {
                Some(t) => RunOutputState { final_message: t@, ..o },
                None => o,
            })
            &&& k != "agent_message"@ ==> {
                &&& o2.final_message == o.final_message
                &&& o2.behavior.tool_calls == o.behavior.tool_calls + (if k.len() > 0 && k != "reasoning"@ {
                    1int
                } else {
                    0int
                })
                &&& o2.behavior.tool_breakdown == (if k.len() > 0 && k != "reasoning"@ {
                    bumped(o.behavior.tool_breakdown, k)
                } else {
                    o.behavior.tool_breakdown
                })
                &&& o2.behavior.images_read == o.behavior.images_read + (if k == "view_image"@ {
                    1int
                } else {
                    0int
                })
                &&& o2.behavior.shell_commands == o.behavior.shell_commands
            }
        }),
{
    reveal_strlit("view_image");
    reveal_strlit("reasoning");
    reveal_strlit("agent_message");
    reveal_strlit("command_execution");
    let k = or_empty(item.kind);
    if item.kind is None {
        assert(k.len() != "command_execution"@.len());
    }
    assert(k != "command_execution"@);
    if k == "view_image"@ {
        assert(k != "agent_message"@) by {
            assert(k.len() != "agent_message"@.len());
        }
        assert(k != "reasoning"@) by {
            assert(k.len() != "reasoning"@.len());
        }
    }
}

} // verus!

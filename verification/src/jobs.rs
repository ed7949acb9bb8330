//! The run plan: which cells of the grid to run, in which order, and under
//! which names.

use vstd::prelude::*;
use crate::config::{is_level, ModelCfg, PromptMode};
use crate::text::{
    append_chars, char_seqs, chars_of, decimal, parse_u8, parse_u8_spec, push_decimal, same_chars,
    split_char, split_chars, string_of, trim_chars, trimmed,
};

verus! {

/// The levels named by the pieces of a comma-separated list: each piece is
/// trimmed and read as a number; pieces that do not read, or name no level,
/// are skipped.
pub open spec fn levels_from(pieces: Seq<Seq<char>>) -> Seq<u8>
    decreases pieces.len(),
{
    if pieces.len() == 0 {
        Seq::empty()
    } else {
        let r = levels_from(pieces.drop_last());
        match parse_u8_spec(trimmed(pieces.last())) {
            Some(l) => if is_level(l) {
                r.push(l)
            } else {
                r
            },
            None => r,
        }
    }
}

/// The levels asked for on the command line (`1,2,3`).
pub fn parse_level_list(levels: &str) -> (r: Vec<u8>)
    ensures
        r@ == levels_from(split_char(levels@, ',')),
{
    let cs = chars_of(levels);
    let pieces = split_chars(&cs, ',');
    let ghost all = split_char(levels@, ',');
    let mut r: Vec<u8> = Vec::new();
    let n = pieces.len();
    let mut i: usize = 0;
    while i < n
        invariant
            n == pieces@.len(),
            char_seqs(pieces@) == all,
            i <= n,
            r@ == levels_from(all.take(i as int)),
        decreases n - i,
    {
        let t = trim_chars(&pieces[i]);
        proof {
            assert(all.take(i + 1).drop_last() =~= all.take(i as int));
            assert(all.take(i + 1).last() == pieces@[i as int]@);
        }
        match parse_u8(&t) {
            Some(l) => {
                if 1 <= l && l <= 3 {
                    r.push(l);
                }
            },
            None => {},
        }
        i += 1;
    }
    assert(all.take(n as int) =~= all);
    r
}

/// The prompt modes named by the pieces of a comma-separated list (`blind`,
/// `hinted`); other pieces are skipped.
pub open spec fn modes_from(pieces: Seq<Seq<char>>) -> Seq<PromptMode>
    decreases pieces.len(),
{
    if pieces.len() == 0 {
        Seq::empty()
    } else {
        let r = modes_from(pieces.drop_last());
        let t = trimmed(pieces.last());
        if t == "blind"@ {
            r.push(PromptMode::Blind)
        } else if t == "hinted"@ {
            r.push(PromptMode::Hinted)
        } else {
            r
        }
    }
}

/// The prompt modes asked for on the command line (`blind,hinted`).
pub fn parse_mode_list(modes: &str) -> (r: Vec<PromptMode>)
    ensures
        r@ == modes_from(split_char(modes@, ',')),
{
    let cs = chars_of(modes);
    let pieces = split_chars(&cs, ',');
    let ghost all = split_char(modes@, ',');
    let blind = chars_of("blind");
    let hinted = chars_of("hinted");
    let mut r: Vec<PromptMode> = Vec::new();
    let n = pieces.len();
    let mut i: usize = 0;
    while i < n
        invariant
            n == pieces@.len(),
            char_seqs(pieces@) == all,
            blind@ == "blind"@,
            hinted@ == "hinted"@,
            i <= n,
            r@ == modes_from(all.take(i as int)),
        decreases n - i,
    {
        let t = trim_chars(&pieces[i]);
        proof {
            assert(all.take(i + 1).drop_last() =~= all.take(i as int));
            assert(all.take(i + 1).last() == pieces@[i as int]@);
        }
        if same_chars(&t, &blind) {
            r.push(PromptMode::Blind);
        } else if same_chars(&t, &hinted) {
            r.push(PromptMode::Hinted);
        }
        i += 1;
    }
    assert(all.take(n as int) =~= all);
    r
}

/// A model is run when no `--only` list was given, or when one of the list's
/// trimmed pieces is its label.
pub open spec fn selected(only: Option<Seq<char>>, label: Seq<char>) -> bool {
    match only {
        None => true,
        Some(o) => listed(o, label),
    }
}

/// One of the trimmed pieces of the comma-separated list `o` is `label`.
pub open spec fn listed(o: Seq<char>, label: Seq<char>) -> bool {
    exists|k: int| 0 <= k < split_char(o, ',').len() && #[trigger] trimmed(split_char(o, ',')[k]) == label
}

/// Whether the model labelled `label` is to be run.
pub fn model_selected(only: Option<&str>, label: &str) -> (b: bool)
    ensures
        b == selected(
            match only {
                Some(o) => Some(o@),
                None => None,
            },
            label@,
        ),
{
    match only {
        None => true,
        Some(o) => {
            let cs = chars_of(o);
            let pieces = split_chars(&cs, ',');
            let lv = chars_of(label);
            let ghost all = split_char(o@, ',');
            let n = pieces.len();
            let mut i: usize = 0;
            while i < n
                invariant
                    n == pieces@.len(),
                    char_seqs(pieces@) == all,
                    all == split_char(o@, ','),
                    only == Some(o),
                    lv@ == label@,
                    i <= n,
                    forall|k: int| 0 <= k < i ==> trimmed(#[trigger] all[k]) != label@,
                decreases n - i,
            {
                let t = trim_chars(&pieces[i]);
                assert(all[i as int] == pieces@[i as int]@);
                if same_chars(&t, &lv) {
                    assert(trimmed(split_char(o@, ',')[i as int]) == label@);
                    assert(0 <= i < split_char(o@, ',').len());
                    assert(listed(o@, label@));
                    return true;
                }
                i += 1;
            }
            false
        },
    }
}

/// The configurations of `grid` that are to be run, in grid order.
pub open spec fn selected_models(grid: Seq<ModelCfg>, only: Option<Seq<char>>) -> Seq<ModelCfg> {
    grid.filter(|m: ModelCfg| selected(only, m.label@))
}

/// The configurations of `grid` that `--only` keeps.
pub fn select_models(grid: &Vec<ModelCfg>, only: Option<&str>) -> (r: Vec<ModelCfg>)
    ensures
        r@ == selected_models(
            grid@,
            match only {
                Some(o) => Some(o@),
                None => None,
            },
        ),
{
    let ghost o = match only {
        Some(o) => Some(o@),
        None => None::<Seq<char>>,
    };
    let mut r: Vec<ModelCfg> = Vec::new();
    let n = grid.len();
    let mut i: usize = 0;
    while i < n
        invariant
            n == grid@.len(),
            i <= n,
            o == (match only {
                Some(o) => Some(o@),
                None => None::<Seq<char>>,
            }),
            r@ == selected_models(grid@.take(i as int), o),
        decreases n - i,
    {
        let m = grid[i];
        proof {
            assert(grid@.take(i + 1) =~= grid@.take(i as int).push(m));
            grid@.take(i as int).lemma_filter_push(m, |m: ModelCfg| selected(o, m.label@));
        }
        if model_selected(only, m.label) {
            r.push(m);
        }
        i += 1;
    }
    assert(grid@.take(n as int) =~= grid@);
    r
}

/// One run of the grid: a model, a level, a prompt mode and a trial number.
pub type Job = (ModelCfg, u8, PromptMode, u32);

/// The jobs of one level and trial: for each mode, every model.
pub open spec fn level_block(t: u32, l: u8, modes: Seq<PromptMode>, models: Seq<ModelCfg>) -> Seq<Job>
    decreases modes.len(),
{
    if modes.len() == 0 {
        Seq::empty()
    } else {
        level_block(t, l, modes.drop_last(), models) + models.map_values(
            |m: ModelCfg| (m, l, modes.last(), t),
        )
    }
}

/// The jobs of one trial: for each level, its block.
pub open spec fn trial_block(t: u32, levels: Seq<u8>, modes: Seq<PromptMode>, models: Seq<ModelCfg>) -> Seq<Job>
    decreases levels.len(),
{
    if levels.len() == 0 {
        Seq::empty()
    } else {
        trial_block(t, levels.drop_last(), modes, models) + level_block(
            t,
            levels.last(),
            modes,
            models,
        )
    }
}

/// All jobs of trials `1..=trials`, trial by trial.
pub open spec fn all_jobs(trials: nat, levels: Seq<u8>, modes: Seq<PromptMode>, models: Seq<ModelCfg>) -> Seq<Job>
    decreases trials,
{
    if trials == 0 {
        Seq::empty()
    } else {
        all_jobs((trials - 1) as nat, levels, modes, models) + trial_block(
            trials as u32,
            levels,
            modes,
            models,
        )
    }
}

/// Appends the jobs of one level and trial.
fn push_level_block(jobs: &mut Vec<Job>, t: u32, l: u8, modes: &Vec<PromptMode>, models: &Vec<ModelCfg>)
    ensures
        final(jobs)@ == old(jobs)@ + level_block(t, l, modes@, models@),
{
    let ghost start = jobs@;
    let mut k: usize = 0;
    assert(modes@.take(0) =~= Seq::<PromptMode>::empty());
    assert(start + level_block(t, l, Seq::<PromptMode>::empty(), models@) =~= start);
    while k < modes.len()
        invariant
            k <= modes@.len(),
            jobs@ == start + level_block(t, l, modes@.take(k as int), models@),
        decreases modes@.len() - k,
    {
        let mode = modes[k];
        let ghost before = jobs@;
        let mut j: usize = 0;
        while j < models.len()
            invariant
                j <= models@.len(),
                jobs@ == before + models@.take(j as int).map_values(
                    |m: ModelCfg| (m, l, mode, t),
                ),
            decreases models@.len() - j,
        {
            jobs.push((models[j], l, mode, t));
            assert(models@.take(j + 1).map_values(|m: ModelCfg| (m, l, mode, t)) =~= models@.take(
                j as int,
            ).map_values(|m: ModelCfg| (m, l, mode, t)).push((models@[j as int], l, mode, t)));
            j += 1;
        }
        assert(models@.take(models@.len() as int) =~= models@);
        assert(modes@.take(k + 1).drop_last() =~= modes@.take(k as int));
        assert(modes@.take(k + 1).last() == mode);
        k += 1;
    }
    assert(modes@.take(modes@.len() as int) =~= modes@);
}

/// The whole work list, built up front so the progress denominator is real:
/// trial by trial, level by level, mode by mode, model by model.
pub fn build_jobs(trials: u32, levels: &Vec<u8>, modes: &Vec<PromptMode>, models: &Vec<ModelCfg>) -> (jobs: Vec<Job>)
    ensures
        jobs@ == all_jobs(trials as nat, levels@, modes@, models@),
{
    let mut jobs: Vec<Job> = Vec::new();
    let mut t: u32 = 0;
    while t < trials
        invariant
            t <= trials,
            jobs@ == all_jobs(t as nat, levels@, modes@, models@),
        decreases trials - t,
    {
        t += 1;
        let ghost before = jobs@;
        let mut li: usize = 0;
        assert(levels@.take(0) =~= Seq::<u8>::empty());
        assert(before + trial_block(t, Seq::<u8>::empty(), modes@, models@) =~= before);
        while li < levels.len()
            invariant
                li <= levels@.len(),
                jobs@ == before + trial_block(t, levels@.take(li as int), modes@, models@),
            decreases levels@.len() - li,
        {
            push_level_block(&mut jobs, t, levels[li], modes, models);
            assert(levels@.take(li + 1).drop_last() =~= levels@.take(li as int));
            assert(levels@.take(li + 1).last() == levels@[li as int]);
            li += 1;
        }
        assert(levels@.take(levels@.len() as int) =~= levels@);
    }
    jobs
}

/// A label made safe for a file name: `/` and `.` become `_`.
pub open spec fn safe_label(label: Seq<char>) -> Seq<char> {
    label.map_values(|c: char| if c == '/' || c == '.' { '_' } else { c })
}

/// The name of a run: safe label, level, mode, trial and a time stamp.
pub open spec fn run_id_text(label: Seq<char>, level: u8, mode: PromptMode, trial: u32, stamp: Seq<char>) -> Seq<char> {
    safe_label(label) + seq!['-', 'L'] + decimal(level as nat) + seq!['-'] + mode.spec_short()
        + seq!['-', 't'] + decimal(trial as nat) + seq!['-'] + stamp
}

/// The name of a run, e.g. `gpt-5_6_high-L3-hint-t2-134501123`.
pub fn run_id(label: &str, level: u8, mode: PromptMode, trial: u32, stamp: &str) -> (id: String)
    ensures
        id@ == run_id_text(label@, level, mode, trial, stamp@),
{
    let lv = chars_of(label);
    let mut v: Vec<char> = Vec::new();
    let mut i: usize = 0;
    while i < lv.len()
        invariant
            i <= lv@.len(),
            v@ == safe_label(lv@.take(i as int)),
        decreases lv@.len() - i,
    {
        let c = lv[i];
        v.push(if c == '/' || c == '.' { '_' } else { c });
        assert(safe_label(lv@.take(i + 1)) =~= safe_label(lv@.take(i as int)).push(
            if c == '/' || c == '.' {
                '_'
            } else {
                c
            },
        ));
        i += 1;
    }
    assert(lv@.take(lv@.len() as int) =~= lv@);
    v.push('-');
    v.push('L');
    push_decimal(&mut v, level as u64);
    v.push('-');
    append_chars(&mut v, mode.short());
    v.push('-');
    v.push('t');
    push_decimal(&mut v, trial as u64);
    v.push('-');
    append_chars(&mut v, stamp);
    assert(v@ =~= run_id_text(label@, level, mode, trial, stamp@));
    string_of(&v)
}

/// The file name of a level's video.
pub open spec fn video_file_text(level: u8) -> Seq<char> {
    "level"@ + decimal(level as nat) + ".mp4"@
}

/// The file name of a level's video, e.g. `level2.mp4`.
pub fn video_file_name(level: u8) -> (f: String)
    ensures
        f@ == video_file_text(level),
{
    let mut v = chars_of("level");
    push_decimal(&mut v, level as u64);
    append_chars(&mut v, ".mp4");
    string_of(&v)
}

proof fn lemma_level_block_len(t: u32, l: u8, modes: Seq<PromptMode>, models: Seq<ModelCfg>)
    ensures
        level_block(t, l, modes, models).len() == modes.len() * models.len(),
    decreases modes.len(),
{
    if modes.len() > 0 {
        lemma_level_block_len(t, l, modes.drop_last(), models);
        let m = modes.len() as int;
        let n = models.len() as int;
        assert((m - 1) * n + n == m * n) by (nonlinear_arith);
    }
}

proof fn lemma_trial_block_len(t: u32, levels: Seq<u8>, modes: Seq<PromptMode>, models: Seq<ModelCfg>)
    ensures
        trial_block(t, levels, modes, models).len() == levels.len() * (modes.len() * models.len()),
    decreases levels.len(),
{
    if levels.len() > 0 {
        lemma_trial_block_len(t, levels.drop_last(), modes, models);
        lemma_level_block_len(t, levels.last(), modes, models);
        let l = levels.len() as int;
        let x = modes.len() * models.len();
        assert((l - 1) * x + x == l * x) by (nonlinear_arith);
    }
}

/// The work list has one job per trial, level, mode and model: its length is
/// the product of the four counts.
pub proof fn law_job_count(trials: nat, levels: Seq<u8>, modes: Seq<PromptMode>, models: Seq<ModelCfg>)
    ensures
        all_jobs(trials, levels, modes, models).len() == trials * (levels.len() * (modes.len()
            * models.len())),
    decreases trials,
{
    if trials > 0 {
        law_job_count((trials - 1) as nat, levels, modes, models);
        lemma_trial_block_len(trials as u32, levels, modes, models);
        let x = levels.len() * (modes.len() * models.len());
        let t = trials as int;
        assert((t - 1) * x + x == t * x) by (nonlinear_arith);
        assert(all_jobs(trials, levels, modes, models) == all_jobs((trials - 1) as nat, levels, modes, models)
            + trial_block(trials as u32, levels, modes, models));
        assert(all_jobs((trials - 1) as nat, levels, modes, models).len() == (t - 1) * x);
        assert(trial_block(trials as u32, levels, modes, models).len() == x);
        assert(all_jobs(trials, levels, modes, models).len() == t * x);
    } else {
        let x = levels.len() * (modes.len() * models.len());
        assert(0 * x == 0);
    }
}

proof fn lemma_level_block_at(t: u32, l: u8, modes: Seq<PromptMode>, models: Seq<ModelCfg>, mi: int, ni: int)
    requires
        0 <= mi < modes.len(),
        0 <= ni < models.len(),
    ensures
        0 <= mi * models.len() + ni < level_block(t, l, modes, models).len(),
        level_block(t, l, modes, models)[mi * models.len() + ni] == (models[ni], l, modes[mi], t),
    decreases modes.len(),
{
    let m = modes.len() as int;
    let n = models.len() as int;
    lemma_level_block_len(t, l, modes, models);
    lemma_level_block_len(t, l, modes.drop_last(), models);
    let pre = level_block(t, l, modes.drop_last(), models);
    let tail = models.map_values(|x: ModelCfg| (x, l, modes.last(), t));
    assert(level_block(t, l, modes, models) == pre + tail);
    assert(0 <= mi * n) by (nonlinear_arith)
        requires
            0 <= mi,
            0 <= n,
    ;
    assert(mi * n + ni < m * n) by (nonlinear_arith)
        requires
            0 <= mi < m,
            0 <= ni < n,
    ;
    if mi == m - 1 {
        assert(pre.len() == mi * n);
        assert((pre + tail)[mi * n + ni] == tail[ni]);
    } else {
        lemma_level_block_at(t, l, modes.drop_last(), models, mi, ni);
        assert(modes.drop_last()[mi] == modes[mi]);
        assert(mi * n + ni < (m - 1) * n) by (nonlinear_arith)
            requires
                0 <= mi < m - 1,
                0 <= ni < n,
        ;
    }
}

proof fn lemma_trial_block_at(t: u32, levels: Seq<u8>, modes: Seq<PromptMode>, models: Seq<ModelCfg>, li: int, x: int)
    requires
        0 <= li < levels.len(),
        0 <= x < modes.len() * models.len(),
    ensures
        0 <= li * (modes.len() * models.len()) + x < trial_block(t, levels, modes, models).len(),
        trial_block(t, levels, modes, models)[li * (modes.len() * models.len()) + x] == level_block(
            t,
            levels[li],
            modes,
            models,
        )[x],
    decreases levels.len(),
{
    let k = modes.len() * models.len();
    let nl = levels.len() as int;
    lemma_trial_block_len(t, levels, modes, models);
    lemma_trial_block_len(t, levels.drop_last(), modes, models);
    lemma_level_block_len(t, levels.last(), modes, models);
    let pre = trial_block(t, levels.drop_last(), modes, models);
    let tail = level_block(t, levels.last(), modes, models);
    assert(trial_block(t, levels, modes, models) == pre + tail);
    assert(0 <= li * k) by (nonlinear_arith)
        requires
            0 <= li,
            0 <= k,
    ;
    assert(li * k + x < nl * k) by (nonlinear_arith)
        requires
            0 <= li < nl,
            0 <= x < k,
    ;
    if li == nl - 1 {
        assert(pre.len() == li * k);
    } else {
        lemma_trial_block_at(t, levels.drop_last(), modes, models, li, x);
        assert(levels.drop_last()[li] == levels[li]);
        assert(li * k + x < (nl - 1) * k) by (nonlinear_arith)
            requires
                0 <= li < nl - 1,
                0 <= x < k,
        ;
    }
}

proof fn lemma_all_jobs_at(trials: nat, levels: Seq<u8>, modes: Seq<PromptMode>, models: Seq<ModelCfg>, t: int, y: int)
    requires
        1 <= t <= trials,
        trials <= u32::MAX,
        0 <= y < levels.len() * (modes.len() * models.len()),
    ensures
        0 <= (t - 1) * (levels.len() * (modes.len() * models.len())) + y < all_jobs(trials, levels, modes, models).len(),
        all_jobs(trials, levels, modes, models)[(t - 1) * (levels.len() * (modes.len() * models.len())) + y]
            == trial_block(t as u32, levels, modes, models)[y],
    decreases trials,
{
    let k = levels.len() * (modes.len() * models.len());
    law_job_count(trials, levels, modes, models);
    law_job_count((trials - 1) as nat, levels, modes, models);
    lemma_trial_block_len(trials as u32, levels, modes, models);
    let pre = all_jobs((trials - 1) as nat, levels, modes, models);
    let tail = trial_block(trials as u32, levels, modes, models);
    assert(all_jobs(trials, levels, modes, models) == pre + tail);
    assert(0 <= (t - 1) * k) by (nonlinear_arith)
        requires
            1 <= t,
            0 <= k,
    ;
    assert((t - 1) * k + y < trials * k) by (nonlinear_arith)
        requires
            1 <= t <= trials,
            0 <= y < k,
    ;
    if t == trials {
        assert(pre.len() == (t - 1) * k);
    } else {
        lemma_all_jobs_at((trials - 1) as nat, levels, modes, models, t, y);
        assert((t - 1) * k + y < (trials - 1) * k) by (nonlinear_arith)
            requires
                1 <= t < trials,
                0 <= y < k,
        ;
    }
}

/// The work list runs trial by trial, and within a trial level by level,
/// mode by mode and model by model: the job of trial `t` (from 1), the
/// `li`th level, the `mi`th mode and the `ni`th model stands at index
/// `(((t - 1) * L + li) * M + mi) * N + ni`, for `L` levels, `M` modes and
/// `N` models, and is exactly that combination. With `law_job_count`, each
/// combination is run once.
pub proof fn law_job_at(
    trials: nat,
    levels: Seq<u8>,
    modes: Seq<PromptMode>,
    models: Seq<ModelCfg>,
    t: int,
    li: int,
    mi: int,
    ni: int,
)
    requires
        trials <= u32::MAX,
        1 <= t <= trials,
        0 <= li < levels.len(),
        0 <= mi < modes.len(),
        0 <= ni < models.len(),
    ensures
        ({
            let idx = (((t - 1) * levels.len() + li) * modes.len() + mi) * models.len() + ni;
            &&& 0 <= idx < all_jobs(trials, levels, modes, models).len()
            &&& all_jobs(trials, levels, modes, models)[idx] == (models[ni], levels[li], modes[mi], t as u32)
        }),
{
    let nl = levels.len() as int;
    let m = modes.len() as int;
    let n = models.len() as int;
    let x = mi * n + ni;
    let y = li * (m * n) + x;
    lemma_level_block_at(t as u32, levels[li], modes, models, mi, ni);
    lemma_level_block_len(t as u32, levels[li], modes, models);
    lemma_trial_block_at(t as u32, levels, modes, models, li, x);
    lemma_trial_block_len(t as u32, levels, modes, models);
    lemma_all_jobs_at(trials, levels, modes, models, t, y);
    assert((((t - 1) * nl + li) * m + mi) * n + ni == (t - 1) * (nl * (m * n)) + y) by (nonlinear_arith)
        requires
            x == mi * n + ni,
            y == li * (m * n) + x,
    ;
}

/// The modes named by a list's pieces: `Blind` is among them exactly when
/// some piece trims to `blind`, and `Hinted` exactly when some piece trims to
/// `hinted`; there is one entry per such piece.
pub proof fn law_modes_from(pieces: Seq<Seq<char>>)
    ensures
        modes_from(pieces).contains(PromptMode::Blind) == exists|k: int|
            0 <= k < pieces.len() && #[trigger] trimmed(pieces[k]) == "blind"@,
        modes_from(pieces).contains(PromptMode::Hinted) == exists|k: int|
            0 <= k < pieces.len() && #[trigger] trimmed(pieces[k]) == "hinted"@,
        modes_from(pieces).len() <= pieces.len(),
    decreases pieces.len(),
{
    reveal_strlit("blind");
    reveal_strlit("hinted");
    if pieces.len() > 0 {
        let d = pieces.drop_last();
        law_modes_from(d);
        let r = modes_from(d);
        let t = trimmed(pieces.last());
        assert("blind"@ != "hinted"@) by {
            assert("blind"@.len() != "hinted"@.len());
        }
        assert forall|k: int| 0 <= k < d.len() implies #[trigger] pieces[k] == d[k] by {}
        if exists|k: int| 0 <= k < pieces.len() && #[trigger] trimmed(pieces[k]) == "blind"@ {
            let k = choose|k: int| 0 <= k < pieces.len() && #[trigger] trimmed(pieces[k]) == "blind"@;
            if k < d.len() {
                assert(trimmed(d[k]) == "blind"@);
            }
        }
        if exists|k: int| 0 <= k < pieces.len() && #[trigger] trimmed(pieces[k]) == "hinted"@ {
            let k = choose|k: int| 0 <= k < pieces.len() && #[trigger] trimmed(pieces[k]) == "hinted"@;
            if k < d.len() {
                assert(trimmed(d[k]) == "hinted"@);
            }
        }
        if exists|k: int| 0 <= k < d.len() && #[trigger] trimmed(d[k]) == "blind"@ {
            let k = choose|k: int| 0 <= k < d.len() && #[trigger] trimmed(d[k]) == "blind"@;
            assert(trimmed(pieces[k]) == "blind"@);
        }
        if exists|k: int| 0 <= k < d.len() && #[trigger] trimmed(d[k]) == "hinted"@ {
            let k = choose|k: int| 0 <= k < d.len() && #[trigger] trimmed(d[k]) == "hinted"@;
            assert(trimmed(pieces[k]) == "hinted"@);
        }
        if t == "blind"@ {
            assert(r.push(PromptMode::Blind)[r.len() as int] == PromptMode::Blind);
            assert(trimmed(pieces[pieces.len() - 1]) == "blind"@);
            assert(r.push(PromptMode::Blind).contains(PromptMode::Hinted) == r.contains(PromptMode::Hinted)) by {
                if r.push(PromptMode::Blind).contains(PromptMode::Hinted) {
                    let j = choose|j: int| 0 <= j < r.len() + 1 && r.push(PromptMode::Blind)[j] == PromptMode::Hinted;
                    assert(r[j] == PromptMode::Hinted);
                }
                if r.contains(PromptMode::Hinted) {
                    let j = choose|j: int| 0 <= j < r.len() && r[j] == PromptMode::Hinted;
                    assert(r.push(PromptMode::Blind)[j] == PromptMode::Hinted);
                }
            }
            assert(r.contains(PromptMode::Blind) ==> r.push(PromptMode::Blind).contains(PromptMode::Blind));
        } else if t == "hinted"@ {
            assert(r.push(PromptMode::Hinted)[r.len() as int] == PromptMode::Hinted);
            assert(trimmed(pieces[pieces.len() - 1]) == "hinted"@);
            assert(r.push(PromptMode::Hinted).contains(PromptMode::Blind) == r.contains(PromptMode::Blind)) by {
                if r.push(PromptMode::Hinted).contains(PromptMode::Blind) {
                    let j = choose|j: int| 0 <= j < r.len() + 1 && r.push(PromptMode::Hinted)[j] == PromptMode::Blind;
                    assert(r[j] == PromptMode::Blind);
                }
                if r.contains(PromptMode::Blind) {
                    let j = choose|j: int| 0 <= j < r.len() && r[j] == PromptMode::Blind;
                    assert(r.push(PromptMode::Hinted)[j] == PromptMode::Blind);
                }
            }
        } else {
            assert(trimmed(pieces[pieces.len() - 1]) != "blind"@);
            assert(trimmed(pieces[pieces.len() - 1]) != "hinted"@);
        }
    }
}

/// The levels named by a list's pieces are the numbers, between 1 and 3,
/// that the trimmed pieces read as: each such piece gives its level, and
/// nothing else is taken.
pub proof fn law_levels_from(pieces: Seq<Seq<char>>)
    ensures
        forall|j: int| 0 <= j < levels_from(pieces).len() ==> 1 <= #[trigger] levels_from(pieces)[j] <= 3,
        forall|k: int|
            0 <= k < pieces.len() && ((#[trigger] parse_u8_spec(trimmed(pieces[k]))) matches Some(l) && 1 <= l <= 3)
                ==> levels_from(pieces).contains(parse_u8_spec(trimmed(pieces[k])).unwrap()),
        forall|l: u8| #[trigger] levels_from(pieces).contains(l) ==> exists|k: int|
            0 <= k < pieces.len() && parse_u8_spec(trimmed(pieces[k])) == Some(l),
    decreases pieces.len(),
{
    if pieces.len() > 0 {
        let d = pieces.drop_last();
        law_levels_from(d);
        let r = levels_from(d);
        let last = parse_u8_spec(trimmed(pieces.last()));
        assert forall|k: int| 0 <= k < d.len() implies #[trigger] pieces[k] == d[k] by {}
        let grows = last matches Some(l) && 1 <= l <= 3;
        let res = levels_from(pieces);
        if grows {
            assert(res == r.push(last.unwrap()));
        } else {
            assert(res == r);
        }
        assert forall|j: int| 0 <= j < res.len() implies 1 <= #[trigger] res[j] <= 3 by {
            if j < r.len() {
                assert(res[j] == r[j]);
            }
        }
        assert forall|k: int|
            0 <= k < pieces.len() && ((#[trigger] parse_u8_spec(trimmed(pieces[k]))) matches Some(l) && 1 <= l <= 3)
                implies res.contains(parse_u8_spec(trimmed(pieces[k])).unwrap()) by {
            let v = parse_u8_spec(trimmed(pieces[k])).unwrap();
            if k < d.len() {
                assert(parse_u8_spec(trimmed(d[k])) == parse_u8_spec(trimmed(pieces[k])));
                let j = choose|j: int| 0 <= j < r.len() && r[j] == v;
                if grows {
                    assert(res[j] == v);
                }
            } else {
                assert(res[r.len() as int] == v);
            }
        }
        assert forall|l: u8| #[trigger] res.contains(l) implies exists|k: int|
            0 <= k < pieces.len() && parse_u8_spec(trimmed(pieces[k])) == Some(l) by {
            let j = choose|j: int| 0 <= j < res.len() && res[j] == l;
            if j < r.len() {
                assert(r[j] == l);
                assert(r.contains(l));
                let k = choose|k: int| 0 <= k < d.len() && parse_u8_spec(trimmed(d[k])) == Some(l);
                assert(pieces[k] == d[k]);
            } else {
                assert(parse_u8_spec(trimmed(pieces[pieces.len() - 1])) == Some(l));
            }
        }
    }
}

/// Without `--only` every model of the grid runs, in grid order. With it, a
/// model runs exactly when one of the list's comma-separated pieces, trimmed,
/// is its label; the models kept are grid entries, each label-listed.
pub proof fn law_selected_models(grid: Seq<ModelCfg>, only: Option<Seq<char>>)
    ensures
        only is None ==> selected_models(grid, only) == grid,
        forall|i: int|
            0 <= i < selected_models(grid, only).len() ==> grid.contains(#[trigger] selected_models(grid, only)[i])
                && (only matches Some(o) ==> exists|k: int|
                0 <= k < split_char(o, ',').len() && #[trigger] trimmed(split_char(o, ',')[k])
                    == selected_models(grid, only)[i].label@),
        forall|j: int|
            0 <= j < grid.len() && (only matches Some(o) ==> exists|k: int|
                0 <= k < split_char(o, ',').len() && #[trigger] trimmed(split_char(o, ',')[k]) == grid[j].label@)
                ==> selected_models(grid, only).contains(#[trigger] grid[j]),
{
    let pred = |m: ModelCfg| selected(only, m.label@);
    assert forall|i: int|
        0 <= i < selected_models(grid, only).len() implies grid.contains(#[trigger] selected_models(grid, only)[i])
            && (only matches Some(o) ==> exists|k: int|
            0 <= k < split_char(o, ',').len() && #[trigger] trimmed(split_char(o, ',')[k])
                == selected_models(grid, only)[i].label@) by {
        grid.lemma_filter_pred(pred, i);
        let m = grid.filter(pred)[i];
        assert(grid.filter(pred).contains(m));
        grid.lemma_filter_contains_rev(pred, m);
    }
    assert forall|j: int|
        0 <= j < grid.len() && (only matches Some(o) ==> exists|k: int|
            0 <= k < split_char(o, ',').len() && #[trigger] trimmed(split_char(o, ',')[k]) == grid[j].label@)
            implies selected_models(grid, only).contains(#[trigger] grid[j]) by {
        grid.lemma_filter_contains(pred, j);
    }
    if only is None {
        assert forall|i: int| 0 <= i < grid.len() implies pred(grid[i]) by {}
        lemma_filter_all(grid, pred);
    }
}

/// Keeping the entries that all pass keeps them all.
proof fn lemma_filter_all(s: Seq<ModelCfg>, pred: spec_fn(ModelCfg) -> bool)
    requires
        forall|i: int| 0 <= i < s.len() ==> pred(s[i]),
    ensures
        s.filter(pred) == s,
    decreases s.len(),
{
    if s.len() == 0 {
        reveal(Seq::filter);
        assert(s.filter(pred) =~= s);
    } else {
        let d = s.drop_last();
        assert forall|i: int| 0 <= i < d.len() implies pred(d[i]) by {
            assert(d[i] == s[i]);
        }
        lemma_filter_all(d, pred);
        assert(s =~= d.push(s.last()));
        d.lemma_filter_push(s.last(), pred);
        assert(pred(s[s.len() - 1]));
    }
}

} // verus!

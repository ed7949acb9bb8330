//! The live leaderboard's state: which runs are in flight.

use vstd::prelude::*;
use crate::order::{insert_distinct, strictly_sorted};
use crate::rank::{preference, rank, ranks, RankKey};
use crate::report::{at_least_one, runs_or_one};
use crate::record::{Outcome, RunRecord};
use crate::runner::texts;
use crate::text::str_eq;

verus! {

/// `std::time::Instant`, carried through without being read.
#[verifier::external_type_specification]
#[verifier::external_body]
pub struct ExInstant(std::time::Instant);

/// A run in flight.
#[derive(Debug)]
pub struct Active {
    pub label: String,
    pub level: u8,
    pub mode: &'static str,
    /// Held as a start instant, not a duration, so the display ticks without
    /// anything having to push updates into it.
    pub started: std::time::Instant,
}

/// The entry describes the run of model `label` on `level` in `mode`.
pub open spec fn active_is(a: Active, label: Seq<char>, level: u8, mode: Seq<char>) -> bool {
    a.label@ == label && a.level == level && a.mode@ == mode
}

/// The position of the first in-flight entry of that run, which is removed
/// when the run finishes.
pub fn active_index(active: &Vec<Active>, label: &str, level: u8, mode: &str) -> (r: Option<usize>)
    ensures
        match r {
            Some(k) => k < active@.len() && active_is(active@[k as int], label@, level, mode@)
                && forall|j: int| 0 <= j < k ==> !active_is(active@[j], label@, level, mode@),
            None => forall|j: int| 0 <= j < active@.len() ==> !active_is(active@[j], label@, level, mode@),
        },
{
    let n = active.len();
    let mut i: usize = 0;
    while i < n
        invariant
            n == active@.len(),
            i <= n,
            forall|j: int| 0 <= j < i ==> !active_is(active@[j], label@, level, mode@),
        decreases n - i,
    {
        let a = &active[i];
        if str_eq(a.label.as_str(), label) && a.level == level && str_eq(a.mode, mode) {
            return Some(i);
        }
        i += 1;
    }
    None
}

/// The leaderboard's tallies of a group of runs. Real-valued sums (cost)
/// are added beside these, outside this library.
#[derive(Debug, Clone, Copy)]
pub struct Tally {
    pub runs: usize,
    pub exact: usize,
    pub chars: u128,
    pub frames: u128,
    pub spatial: u128,
    pub wall_ms: u128,
    pub best_chars: usize,
    pub failures: usize,
}

/// The sum of `f` over the records.
pub open spec fn sum_records(rs: Seq<RunRecord>, f: spec_fn(RunRecord) -> int) -> int
    decreases rs.len(),
{
    if rs.len() == 0 {
        0
    } else {
        sum_records(rs.drop_last(), f) + f(rs.last())
    }
}

/// The most characters any of the records got right (zero for none).
pub open spec fn best_chars(rs: Seq<RunRecord>) -> usize
    decreases rs.len(),
{
    if rs.len() == 0 {
        0
    } else {
        let b = best_chars(rs.drop_last());
        let c = rs.last().score.chars_correct;
        if b >= c {
            b
        } else {
            c
        }
    }
}

/// The tallies of `rs`.
pub open spec fn spec_tally(rs: Seq<RunRecord>) -> Tally {
    Tally {
        runs: rs.len() as usize,
        exact: sum_records(rs, |r: RunRecord| if r.score.word_exact { 1int } else { 0int }) as usize,
        chars: sum_records(rs, |r: RunRecord| r.score.chars_correct as int) as u128,
        frames: sum_records(rs, |r: RunRecord| r.score.frames_correct as int) as u128,
        spatial: sum_records(rs, |r: RunRecord| r.score.spatial_correct as int) as u128,
        wall_ms: sum_records(rs, |r: RunRecord| r.wall_ms as int) as u128,
        best_chars: best_chars(rs),
        failures: sum_records(rs, |r: RunRecord| if r.outcome != Outcome::Scored { 1int } else { 0int }) as usize,
    }
}

/// Over terms that are never negative, a prefix sums to no more than the
/// whole.
proof fn lemma_sum_prefix(rs: Seq<RunRecord>, f: spec_fn(RunRecord) -> int, i: int)
    requires
        0 <= i <= rs.len(),
        forall|r: RunRecord| #[trigger] f(r) >= 0,
    ensures
        0 <= sum_records(rs.take(i), f) <= sum_records(rs, f),
    decreases rs.len(),
{
    if rs.len() == 0 {
        assert(rs.take(i) =~= rs);
    } else {
        let p = rs.drop_last();
        if i < rs.len() {
            lemma_sum_prefix(p, f, i);
            assert(p.take(i) =~= rs.take(i));
        } else {
            lemma_sum_prefix(p, f, p.len() as int);
            assert(p.take(p.len() as int) =~= p);
            assert(rs.take(i) =~= rs);
        }
    }
}

/// A sum of terms of at most `bound` over `n` records is at most `n * bound`.
proof fn lemma_sum_small(rs: Seq<RunRecord>, f: spec_fn(RunRecord) -> int)
    requires
        forall|r: RunRecord| 0 <= #[trigger] f(r) < 0x1_0000_0000_0000_0000,
    ensures
        0 <= sum_records(rs, f) <= rs.len() * 0x1_0000_0000_0000_0000,
    decreases rs.len(),
{
    if rs.len() > 0 {
        lemma_sum_small(rs.drop_last(), f);
    }
}

/// A count of records is at most the number of records.
proof fn lemma_count_records(rs: Seq<RunRecord>, f: spec_fn(RunRecord) -> int)
    requires
        forall|r: RunRecord| 0 <= #[trigger] f(r) <= 1,
    ensures
        0 <= sum_records(rs, f) <= rs.len(),
    decreases rs.len(),
{
    if rs.len() > 0 {
        lemma_count_records(rs.drop_last(), f);
    }
}

/// Tallies a group of runs for the live leaderboard.
pub fn tally_records(rs: &Vec<RunRecord>) -> (t: Tally)
    requires
        sum_records(rs@, |r: RunRecord| r.wall_ms as int) <= u128::MAX,
    ensures
        t == spec_tally(rs@),
{
    let mut t = Tally {
        runs: 0,
        exact: 0,
        chars: 0,
        frames: 0,
        spatial: 0,
        wall_ms: 0,
        best_chars: 0,
        failures: 0,
    };
    let n = rs.len();
    let mut i: usize = 0;
    proof {
        assert(rs@.take(0) =~= Seq::<RunRecord>::empty());
    }
    while i < n
        invariant
            n == rs@.len(),
            i <= n,
            sum_records(rs@, |r: RunRecord| r.wall_ms as int) <= u128::MAX,
            t == spec_tally(rs@.take(i as int)),
        decreases n - i,
    {
        let r = &rs[i];
        let ghost pre = rs@.take(i as int);
        proof {
            assert(rs@.take(i + 1).drop_last() =~= pre);
            assert(rs@.take(i + 1).last() == *r);
            lemma_count_records(pre, |r: RunRecord| if r.score.word_exact { 1int } else { 0int });
            lemma_count_records(pre, |r: RunRecord| if r.outcome != Outcome::Scored { 1int } else { 0int });
            lemma_sum_small(pre, |r: RunRecord| r.score.chars_correct as int);
            lemma_sum_small(pre, |r: RunRecord| r.score.frames_correct as int);
            lemma_sum_small(pre, |r: RunRecord| r.score.spatial_correct as int);
            lemma_sum_prefix(rs@, |r: RunRecord| r.wall_ms as int, i as int);
            lemma_sum_prefix(rs@, |r: RunRecord| r.wall_ms as int, i + 1);
            assert(sum_records(rs@.take(i + 1), |r: RunRecord| r.wall_ms as int) == sum_records(
                pre,
                |r: RunRecord| r.wall_ms as int,
            ) + r.wall_ms);
        }
        t.runs += 1;
        if r.score.word_exact {
            t.exact += 1;
        }
        t.chars = t.chars + r.score.chars_correct as u128;
        t.frames = t.frames + r.score.frames_correct as u128;
        t.spatial = t.spatial + r.score.spatial_correct as u128;
        t.wall_ms = t.wall_ms + r.wall_ms;
        if r.score.chars_correct > t.best_chars {
            t.best_chars = r.score.chars_correct;
        }
        if r.outcome != Outcome::Scored {
            t.failures += 1;
        }
        i += 1;
    }
    assert(rs@.take(n as int) =~= rs@);
    t
}

/// The models of the records.
pub open spec fn record_models(rs: Seq<RunRecord>) -> Seq<Seq<char>> {
    rs.map_values(|r: RunRecord| r.model@)
}

/// The models that have finished runs, each once, in lexicographic order.
pub fn distinct_record_models(rs: &Vec<RunRecord>) -> (r: Vec<String>)
    ensures
        strictly_sorted(texts(r@)),
        texts(r@).to_set() == record_models(rs@).to_set(),
{
    let mut r: Vec<String> = Vec::new();
    let n = rs.len();
    let mut i: usize = 0;
    proof {
        assert(texts(r@) =~= Seq::<Seq<char>>::empty());
        assert(record_models(rs@).take(0) =~= Seq::<Seq<char>>::empty());
    }
    while i < n
        invariant
            n == rs@.len(),
            i <= n,
            strictly_sorted(texts(r@)),
            texts(r@).to_set() == record_models(rs@).take(i as int).to_set(),
        decreases n - i,
    {
        insert_distinct(&mut r, rs[i].model.clone());
        proof {
            let ms = record_models(rs@);
            assert(ms.take(i as int) + seq![rs@[i as int].model@] =~= ms.take(i + 1));
            Seq::lemma_to_set_insert_commutes(ms.take(i as int), rs@[i as int].model@);
        }
        i += 1;
    }
    assert(record_models(rs@).take(n as int) =~= record_models(rs@));
    r
}

/// What the live leaderboard ranks a model by: the number of runs that read
/// the whole word, then the mean number of characters read.
pub open spec fn board_key(t: Tally) -> RankKey {
    RankKey { major: (t.exact as u128, 1), minor: (t.chars, at_least_one(t.runs)) }
}

/// The live leaderboard's order of `ts`, best first, as their indices;
/// models that tie stay in the order given.
pub fn board_order(ts: &Vec<Tally>) -> (p: Vec<usize>)
    ensures
        ranks(ts@.map_values(|t: Tally| board_key(t)), true, p@),
        p@.len() == ts@.len(),
        forall|i: int| 0 <= i < p@.len() ==> p@[i] < ts@.len(),
        forall|i: int, j: int| 0 <= i < j < p@.len() ==> p@[i] != p@[j],
        forall|i: int, j: int|
            #![trigger p@[i], p@[j]]
            0 <= i < j < p@.len() ==> {
                let a = ts@[p@[i] as int];
                let b = ts@[p@[j] as int];
                let na = runs_or_one(a.runs);
                let nb = runs_or_one(b.runs);
                &&& !(b.exact > a.exact)
                &&& b.exact == a.exact ==> !(b.chars * na > a.chars * nb)
                &&& (b.exact == a.exact && b.chars * na == a.chars * nb) ==> p@[i] < p@[j]
            },
{
    let mut keys: Vec<RankKey> = Vec::new();
    let mut i: usize = 0;
    while i < ts.len()
        invariant
            i <= ts@.len(),
            keys@ == ts@.take(i as int).map_values(|t: Tally| board_key(t)),
        decreases ts@.len() - i,
    {
        let t = &ts[i];
        let n: u128 = if t.runs == 0 { 1 } else { t.runs as u128 };
        keys.push(RankKey { major: (t.exact as u128, 1), minor: (t.chars, n) });
        assert(ts@.take(i + 1) =~= ts@.take(i as int).push(ts@[i as int]));
        i += 1;
    }
    assert(ts@.take(ts@.len() as int) =~= ts@);
    let p = rank(&keys, true);
    proof {
        law_board_order(ts@, p@);
    }
    p
}

/// The live leaderboard's order, over the tallies themselves: it lists
/// every model once; a model never comes after one with more exact solves,
/// nor, on equal solves, after one with more characters read per run
/// (compared exactly, with runs of 0 counted as 1); and models equal on both
/// keep the order they were given in.
pub proof fn law_board_order(ts: Seq<Tally>, p: Seq<usize>)
    requires
        ranks(ts.map_values(|t: Tally| board_key(t)), true, p),
    ensures
        p.len() == ts.len(),
        forall|i: int| 0 <= i < p.len() ==> p[i] < ts.len(),
        forall|i: int, j: int| 0 <= i < j < p.len() ==> p[i] != p[j],
        forall|i: int, j: int|
            #![trigger p[i], p[j]]
            0 <= i < j < p.len() ==> {
                let a = ts[p[i] as int];
                let b = ts[p[j] as int];
                let na = runs_or_one(a.runs);
                let nb = runs_or_one(b.runs);
                &&& !(b.exact > a.exact)
                &&& b.exact == a.exact ==> !(b.chars * na > a.chars * nb)
                &&& (b.exact == a.exact && b.chars * na == a.chars * nb) ==> p[i] < p[j]
            },
{
    let keys = ts.map_values(|t: Tally| board_key(t));
    assert forall|i: int, j: int| #![trigger p[i], p[j]] 0 <= i < j < p.len() implies {
        let a = ts[p[i] as int];
        let b = ts[p[j] as int];
        let na = runs_or_one(a.runs);
        let nb = runs_or_one(b.runs);
        &&& !(b.exact > a.exact)
        &&& b.exact == a.exact ==> !(b.chars * na > a.chars * nb)
        &&& (b.exact == a.exact && b.chars * na == a.chars * nb) ==> p[i] < p[j]
    } by {
        assert(keys[p[i] as int] == board_key(ts[p[i] as int]));
        assert(keys[p[j] as int] == board_key(ts[p[j] as int]));
        assert(preference(true, keys[p[i] as int], keys[p[j] as int]) >= 0);
    }
}

/// Tallying one more record adds that record to each tally, each from its
/// own field: one run; one exact solve when its word was exact; its right
/// characters, frames and places; its wall time; the best character count
/// becomes the larger of the two; one failure when it did not score.
pub proof fn law_tally_push(rs: Seq<RunRecord>, r: RunRecord)
    requires
        rs.len() < usize::MAX,
        sum_records(rs.push(r), |r: RunRecord| r.wall_ms as int) <= u128::MAX,
    ensures
        ({
            let a = spec_tally(rs);
            let b = spec_tally(rs.push(r));
            &&& b.runs == a.runs + 1
            &&& b.exact == a.exact + (if r.score.word_exact { 1int } else { 0int })
            &&& b.chars == a.chars + r.score.chars_correct
            &&& b.frames == a.frames + r.score.frames_correct
            &&& b.spatial == a.spatial + r.score.spatial_correct
            &&& b.wall_ms == a.wall_ms + r.wall_ms
            &&& b.best_chars == (if a.best_chars >= r.score.chars_correct {
                a.best_chars
            } else {
                r.score.chars_correct
            })
            &&& b.failures == a.failures + (if r.outcome != Outcome::Scored { 1int } else { 0int })
        }),
{
    let all = rs.push(r);
    assert(all.drop_last() =~= rs);
    assert(all.last() == r);
    lemma_count_records(all, |r: RunRecord| if r.score.word_exact { 1int } else { 0int });
    lemma_count_records(all, |r: RunRecord| if r.outcome != Outcome::Scored { 1int } else { 0int });
    lemma_sum_small(all, |r: RunRecord| r.score.chars_correct as int);
    lemma_sum_small(all, |r: RunRecord| r.score.frames_correct as int);
    lemma_sum_small(all, |r: RunRecord| r.score.spatial_correct as int);
    lemma_sum_prefix(all, |r: RunRecord| r.wall_ms as int, rs.len() as int);
    assert(all.take(rs.len() as int) =~= rs);
    lemma_count_records(rs, |r: RunRecord| if r.score.word_exact { 1int } else { 0int });
    lemma_count_records(rs, |r: RunRecord| if r.outcome != Outcome::Scored { 1int } else { 0int });
    lemma_sum_small(rs, |r: RunRecord| r.score.chars_correct as int);
    lemma_sum_small(rs, |r: RunRecord| r.score.frames_correct as int);
    lemma_sum_small(rs, |r: RunRecord| r.score.spatial_correct as int);
    assert((rs.len() + 1) * 0x1_0000_0000_0000_0000 <= u128::MAX) by (nonlinear_arith)
        requires
            rs.len() < usize::MAX,
            usize::MAX <= u64::MAX,
    ;
    assert(rs.len() * 0x1_0000_0000_0000_0000 <= (rs.len() + 1) * 0x1_0000_0000_0000_0000) by (nonlinear_arith);
    let a = spec_tally(rs);
    let b = spec_tally(all);
    assert(b.runs == a.runs + 1);
    assert(b.exact == a.exact + (if r.score.word_exact { 1int } else { 0int }));
    assert(b.chars == a.chars + r.score.chars_correct);
    assert(b.wall_ms == a.wall_ms + r.wall_ms);
    assert(b.best_chars == best_chars(all));
}

/// The model list is read off the records, one entry per record.
pub proof fn law_record_models(rs: Seq<RunRecord>)
    ensures
        record_models(rs).len() == rs.len(),
        forall|i: int| 0 <= i < rs.len() ==> #[trigger] record_models(rs)[i] == rs[i].model@,
{
}

} // verus!

//! The final report: the rows read back from the results file, and the
//! tallies the leaderboard, the level breakdown and the behaviour table are
//! printed from.

use vstd::prelude::*;
use crate::order::{insert_distinct, lemma_lex_irreflexive, lemma_lex_total, lemma_lex_transitive, lex_lt, str_lt, strictly_sorted};
use crate::rank::{key_wf, preference, rank, ranks, RankKey};
use crate::record::Outcome;
use crate::runner::texts;
use crate::text::str_eq;

verus! {

/// How one position was read, as stored in a results row.
#[derive(Debug, Clone)]
pub struct PositionView {
    pub index: usize,
    pub font: String,
    pub char_ok: bool,
}

/// The scores of a results row. (The normalised Levenshtein similarity is a
/// real number and is kept beside the row, outside this library.)
#[derive(Debug, Clone)]
pub struct ScoreView {
    pub parsed: bool,
    pub word_exact: bool,
    pub chars_correct: usize,
    pub frames_correct: usize,
    pub spatial_correct: usize,
    pub positions: Vec<PositionView>,
    pub word_normalized: String,
}

/// What the agent did, as stored in a results row.
#[derive(Debug, Clone, Copy)]
pub struct BehaviorView {
    pub shell_commands: u32,
    pub ffmpeg_invocations: u32,
    pub images_read: u32,
    pub python_invocations: u32,
    pub used_frame_diff: bool,
    pub used_contrast_stretch: bool,
    pub used_crop: bool,
    pub turns: u32,
}

/// Token counts of a results row. (The cost is a real number and is kept
/// beside the row, outside this library.)
#[derive(Debug, Clone, Copy)]
pub struct UsageView {
    pub output_tokens: u64,
    pub reasoning_tokens: u64,
}

/// A run as read back from the results file.
#[derive(Debug, Clone)]
pub struct Row {
    pub model: String,
    pub level: u8,
    pub mode: String,
    pub pass: String,
    pub outcome: Outcome,
    pub wall_ms: u128,
    pub concurrent_runs: usize,
    pub score: ScoreView,
    pub behavior: BehaviorView,
    pub usage: UsageView,
}

/// The outcome a row counts as.
pub open spec fn spec_effective(r: Row) -> Outcome {
    if r.outcome == Outcome::Cheated {
        Outcome::Cheated
    } else if r.score.parsed {
        Outcome::Scored
    } else {
        r.outcome
    }
}

impl Row {
    /// Normalised outcome, matching what the site reports.
    ///
    /// A run is recorded as TimedOut whenever its process was still alive at
    /// the wall-clock limit, even if it had already written a complete
    /// answer. Counting that as a failure conflates "produced nothing before
    /// the deadline" with "answered, but slowly" and inflates the failure
    /// rate. Judge on whether an answer parsed; keep the timeout separate.
    pub fn effective(&self) -> (o: Outcome)
        ensures
            o == spec_effective(*self),
    {
        if self.outcome == Outcome::Cheated {
            return Outcome::Cheated;
        }
        if self.score.parsed {
            return Outcome::Scored;
        }
        self.outcome
    }

    /// Whether the run hit the wall-clock limit.
    pub fn hit_wall(&self) -> (b: bool)
        ensures
            b == (self.outcome == Outcome::TimedOut),
    {
        self.outcome == Outcome::TimedOut
    }
}

/// Latency is only reported from the sequential pass: contended timings
/// from the parallel pass are never mixed into it.
pub fn latency_row(r: &Row) -> (b: bool)
    ensures
        b == (r.pass@ == "latency"@),
{
    str_eq(r.pass.as_str(), "latency")
}

/// How a model's line in the hint table reads.
#[derive(Debug, Clone, Copy, PartialEq, Eq, Structural)]
pub enum HintLine {
    /// No run in either mode: no line.
    Skip,
    /// One mode has no runs yet: the means are shown, the difference is not
    /// (a difference against missing data would read as a finding).
    Partial,
    /// Both modes have runs: the difference of the means is shown.
    Delta,
}

/// The hint table's line for a model with `blind_runs` runs without the hint
/// and `hinted_runs` with it.
pub fn hint_line(blind_runs: usize, hinted_runs: usize) -> (l: HintLine)
    ensures
        l == (if blind_runs == 0 && hinted_runs == 0 {
            HintLine::Skip
        } else if blind_runs == 0 || hinted_runs == 0 {
            HintLine::Partial
        } else {
            HintLine::Delta
        }),
{
    if blind_runs == 0 && hinted_runs == 0 {
        HintLine::Skip
    } else if blind_runs == 0 || hinted_runs == 0 {
        HintLine::Partial
    } else {
        HintLine::Delta
    }
}

/// The sum of `f` over the rows.
pub open spec fn total(rows: Seq<Row>, f: spec_fn(Row) -> int) -> int
    decreases rows.len(),
{
    if rows.len() == 0 {
        0
    } else {
        total(rows.drop_last(), f) + f(rows.last())
    }
}

/// One for rows where `p` holds, zero elsewhere.
pub open spec fn indicator(b: bool) -> int {
    if b {
        1
    } else {
        0
    }
}

/// Over terms that are never negative, a prefix sums to no more than the
/// whole.
pub proof fn lemma_total_prefix(rows: Seq<Row>, f: spec_fn(Row) -> int, i: int)
    requires
        0 <= i <= rows.len(),
        forall|r: Row| #[trigger] f(r) >= 0,
    ensures
        0 <= total(rows.take(i), f) <= total(rows, f),
    decreases rows.len(),
{
    if rows.len() == 0 {
        assert(rows.take(i) =~= rows);
    } else {
        let p = rows.drop_last();
        if i < rows.len() {
            lemma_total_prefix(p, f, i);
            assert(p.take(i) =~= rows.take(i));
        } else {
            lemma_total_prefix(p, f, p.len() as int);
            assert(p.take(p.len() as int) =~= p);
            assert(rows.take(i) =~= rows);
        }
    }
}

/// The tallies of a group of rows. Real-valued sums (normalised
/// similarity, cost) are added beside these, outside this library.
#[derive(Debug, Clone, Copy)]
pub struct Agg {
    pub runs: usize,
    pub exact: usize,
    pub chars: u128,
    pub frames: u128,
    pub spatial: u128,
    pub wall: u128,
    pub out_tok: u64,
    pub shell: u128,
    pub ffmpeg: u128,
    pub imgs: u128,
    pub diffs: usize,
    pub fails: usize,
    pub walls: usize,
}

/// The tallies of `rows`.
pub open spec fn spec_agg(rows: Seq<Row>) -> Agg {
    Agg {
        runs: rows.len() as usize,
        exact: total(rows, |r: Row| indicator(r.score.word_exact)) as usize,
        chars: total(rows, |r: Row| r.score.chars_correct as int) as u128,
        frames: total(rows, |r: Row| r.score.frames_correct as int) as u128,
        spatial: total(rows, |r: Row| r.score.spatial_correct as int) as u128,
        wall: total(rows, |r: Row| r.wall_ms as int) as u128,
        out_tok: total(rows, |r: Row| r.usage.output_tokens as int) as u64,
        shell: total(rows, |r: Row| r.behavior.shell_commands as int) as u128,
        ffmpeg: total(rows, |r: Row| r.behavior.ffmpeg_invocations as int) as u128,
        imgs: total(rows, |r: Row| r.behavior.images_read as int) as u128,
        diffs: total(rows, |r: Row| indicator(r.behavior.used_frame_diff)) as usize,
        fails: total(rows, |r: Row| indicator(spec_effective(r) != Outcome::Scored)) as usize,
        walls: total(rows, |r: Row| indicator(r.outcome == Outcome::TimedOut)) as usize,
    }
}

/// Sums that fit their fields.
pub open spec fn agg_fits(rows: Seq<Row>) -> bool {
    &&& total(rows, |r: Row| r.wall_ms as int) <= u128::MAX
    &&& total(rows, |r: Row| r.usage.output_tokens as int) <= u64::MAX
}

/// A count of rows is at most the number of rows.
proof fn lemma_count_le(rows: Seq<Row>, f: spec_fn(Row) -> int)
    requires
        forall|r: Row| 0 <= #[trigger] f(r) <= 1,
    ensures
        0 <= total(rows, f) <= rows.len(),
    decreases rows.len(),
{
    if rows.len() > 0 {
        lemma_count_le(rows.drop_last(), f);
    }
}

/// A sum of terms below `2^64` over `n` rows is below `n * 2^64`.
proof fn lemma_small_sum(rows: Seq<Row>, f: spec_fn(Row) -> int)
    requires
        forall|r: Row| 0 <= #[trigger] f(r) < 0x1_0000_0000_0000_0000,
    ensures
        0 <= total(rows, f) <= rows.len() * 0x1_0000_0000_0000_0000,
    decreases rows.len(),
{
    if rows.len() > 0 {
        lemma_small_sum(rows.drop_last(), f);
    }
}

/// Tallies a group of rows.
pub fn agg_of(rows: &Vec<Row>) -> (a: Agg)
    requires
        agg_fits(rows@),
    ensures
        a == spec_agg(rows@),
{
    let mut a = Agg {
        runs: 0,
        exact: 0,
        chars: 0,
        frames: 0,
        spatial: 0,
        wall: 0,
        out_tok: 0,
        shell: 0,
        ffmpeg: 0,
        imgs: 0,
        diffs: 0,
        fails: 0,
        walls: 0,
    };
    let n = rows.len();
    let mut i: usize = 0;
    proof {
        assert(rows@.take(0) =~= Seq::<Row>::empty());
    }
    while i < n
        invariant
            n == rows@.len(),
            i <= n,
            agg_fits(rows@),
            a == spec_agg(rows@.take(i as int)),
        decreases n - i,
    {
        let r = &rows[i];
        let ghost pre = rows@.take(i as int);
        proof {
            assert(rows@.take(i + 1).drop_last() =~= pre);
            assert(rows@.take(i + 1).last() == *r);
            lemma_count_le(pre, |r: Row| indicator(r.score.word_exact));
            lemma_count_le(pre, |r: Row| indicator(r.behavior.used_frame_diff));
            lemma_count_le(pre, |r: Row| indicator(spec_effective(r) != Outcome::Scored));
            lemma_count_le(pre, |r: Row| indicator(r.outcome == Outcome::TimedOut));
            lemma_small_sum(pre, |r: Row| r.score.chars_correct as int);
            lemma_small_sum(pre, |r: Row| r.score.frames_correct as int);
            lemma_small_sum(pre, |r: Row| r.score.spatial_correct as int);
            lemma_small_sum(pre, |r: Row| r.behavior.shell_commands as int);
            lemma_small_sum(pre, |r: Row| r.behavior.ffmpeg_invocations as int);
            lemma_small_sum(pre, |r: Row| r.behavior.images_read as int);
            lemma_total_prefix(rows@, |r: Row| r.wall_ms as int, i + 1);
            lemma_total_prefix(rows@, |r: Row| r.usage.output_tokens as int, i + 1);
            lemma_total_prefix(rows@, |r: Row| r.wall_ms as int, i as int);
            lemma_total_prefix(rows@, |r: Row| r.usage.output_tokens as int, i as int);
            lemma_small_sum(pre, |r: Row| r.usage.output_tokens as int);
            assert(total(rows@.take(i + 1), |r: Row| r.wall_ms as int) == total(pre, |r: Row| r.wall_ms as int) + r.wall_ms);
            assert(total(rows@.take(i + 1), |r: Row| r.usage.output_tokens as int) == total(pre, |r: Row| r.usage.output_tokens as int) + r.usage.output_tokens);
        }
        a.runs += 1;
        if r.score.word_exact {
            a.exact += 1;
        }
        a.chars = a.chars + r.score.chars_correct as u128;
        a.frames = a.frames + r.score.frames_correct as u128;
        a.spatial = a.spatial + r.score.spatial_correct as u128;
        a.wall = a.wall + r.wall_ms;
        a.out_tok = a.out_tok + r.usage.output_tokens;
        a.shell = a.shell + r.behavior.shell_commands as u128;
        a.ffmpeg = a.ffmpeg + r.behavior.ffmpeg_invocations as u128;
        a.imgs = a.imgs + r.behavior.images_read as u128;
        if r.behavior.used_frame_diff {
            a.diffs += 1;
        }
        if r.effective() != Outcome::Scored {
            a.fails += 1;
        }
        if r.hit_wall() {
            a.walls += 1;
        }
        i += 1;
    }
    assert(rows@.take(n as int) =~= rows@);
    a
}

/// The model labels of the rows.
pub open spec fn row_models(rows: Seq<Row>) -> Seq<Seq<char>> {
    rows.map_values(|r: Row| r.model@)
}

/// The models that have rows, each once, in lexicographic order.
pub fn distinct_models(rows: &Vec<Row>) -> (r: Vec<String>)
    ensures
        strictly_sorted(texts(r@)),
        texts(r@).to_set() == row_models(rows@).to_set(),
{
    let mut r: Vec<String> = Vec::new();
    let n = rows.len();
    let mut i: usize = 0;
    proof {
        assert(texts(r@) =~= Seq::<Seq<char>>::empty());
        assert(row_models(rows@).take(0) =~= Seq::<Seq<char>>::empty());
    }
    while i < n
        invariant
            n == rows@.len(),
            i <= n,
            strictly_sorted(texts(r@)),
            texts(r@).to_set() == row_models(rows@).take(i as int).to_set(),
        decreases n - i,
    {
        insert_distinct(&mut r, rows[i].model.clone());
        proof {
            let ms = row_models(rows@);
            assert(ms.take(i + 1) =~= ms.take(i as int).push(rows@[i as int].model@));
            Seq::lemma_to_set_insert_commutes(ms.take(i as int), rows@[i as int].model@);
            assert(ms.take(i as int) + seq![rows@[i as int].model@] =~= ms.take(i + 1));
        }
        i += 1;
    }
    assert(row_models(rows@).take(n as int) =~= row_models(rows@));
    r
}

/// The levels of the rows.
pub open spec fn row_levels(rows: Seq<Row>) -> Seq<u8> {
    rows.map_values(|r: Row| r.level)
}

/// Adds `x` to a strictly increasing list, unless it is there already.
fn insert_level(v: &mut Vec<u8>, x: u8)
    requires
        forall|a: int, b: int| 0 <= a < b < old(v)@.len() ==> old(v)@[a] < old(v)@[b],
    ensures
        forall|a: int, b: int| 0 <= a < b < final(v)@.len() ==> final(v)@[a] < final(v)@[b],
        final(v)@.to_set() == old(v)@.to_set().insert(x),
{
    let ghost s = v@;
    let n = v.len();
    let mut j: usize = 0;
    while j < n && v[j] < x
        invariant
            n == v@.len(),
            s == v@,
            j <= n,
            forall|k: int| 0 <= k < j ==> #[trigger] s[k] < x,
        decreases n - j,
    {
        j += 1;
    }
    if j < n && v[j] == x {
        assert(s.to_set().insert(x) =~= s.to_set());
        return;
    }
    v.insert(j, x);
    proof {
        let t = v@;
        assert(t =~= s.insert(j as int, x));
        assert forall|y: u8| t.contains(y) implies s.contains(y) || y == x by {
            let k = choose|k: int| 0 <= k < t.len() && t[k] == y;
            if k < j {
                assert(s[k] == y);
            } else if k > j {
                assert(s[k - 1] == y);
            }
        }
        assert forall|y: u8| s.contains(y) implies t.contains(y) by {
            let k = choose|k: int| 0 <= k < s.len() && s[k] == y;
            if k < j {
                assert(t[k] == y);
            } else {
                assert(t[k + 1] == y);
            }
        }
        assert(t[j as int] == x);
        assert(t.to_set() =~= s.to_set().insert(x));
    }
}

/// The levels that have rows, each once, in increasing order.
pub fn distinct_levels(rows: &Vec<Row>) -> (r: Vec<u8>)
    ensures
        forall|a: int, b: int| 0 <= a < b < r@.len() ==> r@[a] < r@[b],
        r@.to_set() == row_levels(rows@).to_set(),
{
    let mut r: Vec<u8> = Vec::new();
    let n = rows.len();
    let mut i: usize = 0;
    proof {
        assert(row_levels(rows@).take(0) =~= Seq::<u8>::empty());
        assert(r@ =~= Seq::<u8>::empty());
    }
    while i < n
        invariant
            n == rows@.len(),
            i <= n,
            forall|a: int, b: int| 0 <= a < b < r@.len() ==> r@[a] < r@[b],
            r@.to_set() == row_levels(rows@).take(i as int).to_set(),
        decreases n - i,
    {
        insert_level(&mut r, rows[i].level);
        proof {
            let ls = row_levels(rows@);
            assert(ls.take(i as int) + seq![rows@[i as int].level] =~= ls.take(i + 1));
            Seq::lemma_to_set_insert_commutes(ls.take(i as int), rows@[i as int].level);
        }
        i += 1;
    }
    assert(row_levels(rows@).take(n as int) =~= row_levels(rows@));
    r
}

/// All positions of all rows, row by row.
pub open spec fn all_positions(rows: Seq<Row>) -> Seq<PositionView>
    decreases rows.len(),
{
    if rows.len() == 0 {
        Seq::empty()
    } else {
        all_positions(rows.drop_last()) + rows.last().score.positions@
    }
}

/// The typeface key of a position: its place in the word and its font.
pub open spec fn font_key(p: PositionView) -> (usize, Seq<char>) {
    (p.index, p.font@)
}

/// How many positions with key `k` were read correctly, and how many there are.
pub open spec fn font_counts(ps: Seq<PositionView>, k: (usize, Seq<char>)) -> (nat, nat)
    decreases ps.len(),
{
    if ps.len() == 0 {
        (0, 0)
    } else {
        let c = font_counts(ps.drop_last(), k);
        if font_key(ps.last()) == k {
            (c.0 + if ps.last().char_ok {
                1nat
            } else {
                0nat
            }, c.1 + 1)
        } else {
            c
        }
    }
}

/// How often one glyph, drawn in one typeface, was read correctly.
#[derive(Debug, Clone)]
pub struct FontTally {
    pub index: usize,
    pub font: String,
    pub ok: usize,
    pub total: usize,
}

/// The key of a tally entry.
pub open spec fn tally_key(t: FontTally) -> (usize, Seq<char>) {
    (t.index, t.font@)
}

/// The entries are one per key, count exactly the positions `ps` with their
/// key, and cover every key of `ps` and no other.
pub open spec fn tallies_of(ts: Seq<FontTally>, ps: Seq<PositionView>) -> bool {
    &&& forall|a: int, b: int| 0 <= a < b < ts.len() ==> tally_key(ts[a]) != tally_key(ts[b])
    &&& forall|a: int|
        0 <= a < ts.len() ==> (#[trigger] ts[a]).ok == font_counts(ps, tally_key(ts[a])).0
            && ts[a].total == font_counts(ps, tally_key(ts[a])).1 && ts[a].total > 0
    &&& forall|q: int|
        0 <= q < ps.len() ==> exists|a: int| 0 <= a < ts.len() && tally_key(ts[a]) == font_key(#[trigger] ps[q])
}

/// Key `a` comes strictly before key `b`: by glyph index, then by typeface
/// name in the order of `String`.
pub open spec fn key_lt(a: (usize, Seq<char>), b: (usize, Seq<char>)) -> bool {
    a.0 < b.0 || (a.0 == b.0 && lex_lt(a.1, b.1))
}

/// The entries come in strictly increasing order of their keys.
pub open spec fn tallies_sorted(ts: Seq<FontTally>) -> bool {
    forall|a: int, b: int| 0 <= a < b < ts.len() ==> key_lt(tally_key(ts[a]), tally_key(ts[b]))
}

proof fn lemma_key_lt_total(a: (usize, Seq<char>), b: (usize, Seq<char>))
    ensures
        a != b ==> key_lt(a, b) || key_lt(b, a),
        !(key_lt(a, b) && key_lt(b, a)),
        !key_lt(a, a),
{
    lemma_lex_total(a.1, b.1);
    lemma_lex_irreflexive(a.1);
}

proof fn lemma_key_lt_transitive(a: (usize, Seq<char>), b: (usize, Seq<char>), c: (usize, Seq<char>))
    requires
        key_lt(a, b),
        key_lt(b, c),
    ensures
        key_lt(a, c),
{
    if a.0 == b.0 && b.0 == c.0 {
        lemma_lex_transitive(a.1, b.1, c.1);
    }
}

/// A key that no position has counts nothing.
proof fn lemma_font_counts_absent(ps: Seq<PositionView>, k: (usize, Seq<char>))
    requires
        forall|q: int| 0 <= q < ps.len() ==> font_key(#[trigger] ps[q]) != k,
    ensures
        font_counts(ps, k) == (0nat, 0nat),
    decreases ps.len(),
{
    if ps.len() > 0 {
        let p = ps.drop_last();
        assert forall|q: int| 0 <= q < p.len() implies font_key(#[trigger] p[q]) != k by {
            assert(p[q] == ps[q]);
        }
        lemma_font_counts_absent(p, k);
        assert(ps[ps.len() - 1] == ps.last());
    }
}

/// Counts are bounded by the number of positions.
proof fn lemma_font_counts_bound(ps: Seq<PositionView>, k: (usize, Seq<char>))
    ensures
        font_counts(ps, k).0 <= font_counts(ps, k).1 <= ps.len(),
    decreases ps.len(),
{
    if ps.len() > 0 {
        lemma_font_counts_bound(ps.drop_last(), k);
    }
}

/// Counts one more position into the tallies.
fn count_position(ts: &mut Vec<FontTally>, p: &PositionView, Ghost(done): Ghost<Seq<PositionView>>)
    requires
        tallies_of(old(ts)@, done),
        tallies_sorted(old(ts)@),
        done.len() < usize::MAX,
    ensures
        tallies_of(final(ts)@, done.push(*p)),
        tallies_sorted(final(ts)@),
{
    let ghost s = ts@;
    let ghost nd = done.push(*p);
    assert(nd.drop_last() =~= done);
    assert(nd.last() == *p);
    let n = ts.len();
    let mut k: usize = 0;
    while k < n
        invariant
            n == ts@.len(),
            s == ts@,
            tallies_of(s, done),
            tallies_sorted(s),
            done.len() < usize::MAX,
            nd == done.push(*p),
            nd.drop_last() == done,
            nd.last() == *p,
            k <= n,
            forall|j: int| 0 <= j < k ==> tally_key(#[trigger] s[j]) != font_key(*p),
        decreases n - k,
    {
        if ts[k].index == p.index && str_eq(ts[k].font.as_str(), p.font.as_str()) {
            proof {
                lemma_font_counts_bound(done, font_key(*p));
                assert(tally_key(s[k as int]) == font_key(*p));
            }
            let e = FontTally {
                index: ts[k].index,
                font: ts[k].font.clone(),
                ok: if p.char_ok { ts[k].ok + 1 } else { ts[k].ok },
                total: ts[k].total + 1,
            };
            ts.set(k, e);
            proof {
                let t = ts@;
                assert forall|a: int, b: int| 0 <= a < b < t.len() implies tally_key(t[a]) != tally_key(t[b])
                    && key_lt(tally_key(t[a]), tally_key(t[b])) by {
                    assert(tally_key(t[a]) == tally_key(s[a]));
                    assert(tally_key(t[b]) == tally_key(s[b]));
                }
                assert forall|a: int| 0 <= a < t.len() implies (#[trigger] t[a]).ok == font_counts(nd, tally_key(t[a])).0
                    && t[a].total == font_counts(nd, tally_key(t[a])).1 by {
                    assert(tally_key(t[a]) == tally_key(s[a]));
                }
                assert forall|q: int| 0 <= q < nd.len() implies exists|a: int| 0 <= a < t.len() && tally_key(t[a]) == font_key(#[trigger] nd[q]) by {
                    if q < done.len() {
                        assert(nd[q] == done[q]);
                        let a = choose|a: int| 0 <= a < s.len() && tally_key(s[a]) == font_key(done[q]);
                        assert(tally_key(t[a]) == tally_key(s[a]));
                    } else {
                        assert(tally_key(t[k as int]) == font_key(nd[q]));
                    }
                }
            }
            return;
        }
        k += 1;
    }
    proof {
        assert forall|q: int| 0 <= q < done.len() implies font_key(#[trigger] done[q]) != font_key(*p) by {
            let a = choose|a: int| 0 <= a < s.len() && tally_key(s[a]) == font_key(done[q]);
        }
        lemma_font_counts_absent(done, font_key(*p));
    }
    let ghost pk = font_key(*p);
    let mut pos: usize = 0;
    while pos < n
        invariant
            n == ts@.len(),
            s == ts@,
            pos <= n,
            pk == font_key(*p),
            forall|j: int| 0 <= j < n ==> tally_key(#[trigger] s[j]) != pk,
            forall|j: int| 0 <= j < pos ==> key_lt(tally_key(#[trigger] s[j]), pk),
        ensures
            pos <= n,
            forall|j: int| 0 <= j < pos ==> key_lt(tally_key(#[trigger] s[j]), pk),
            pos < n ==> key_lt(pk, tally_key(s[pos as int])),
        decreases n - pos,
    {
        let later = p.index < ts[pos].index || (p.index == ts[pos].index && str_lt(
            p.font.as_str(),
            ts[pos].font.as_str(),
        ));
        if later {
            break;
        }
        proof {
            assert(tally_key(s[pos as int]) != pk);
            lemma_key_lt_total(tally_key(s[pos as int]), pk);
        }
        pos += 1;
    }
    ts.insert(pos, FontTally { index: p.index, font: p.font.clone(), ok: if p.char_ok { 1 } else { 0 }, total: 1 });
    proof {
        let t = ts@;
        let ps = pos as int;
        assert forall|a: int| 0 <= a < t.len() && a != ps implies #[trigger] t[a] == (if a < ps { s[a] } else { s[a - 1] }) by {}
        assert forall|a: int, b: int| 0 <= a < b < t.len() implies tally_key(t[a]) != tally_key(t[b])
            && key_lt(tally_key(t[a]), tally_key(t[b])) by {
            if b < ps {
                assert(t[a] == s[a] && t[b] == s[b]);
            } else if b == ps {
                assert(t[a] == s[a]);
            } else if a == ps {
                assert(t[b] == s[b - 1]);
                if b - 1 > ps {
                    lemma_key_lt_transitive(pk, tally_key(s[ps]), tally_key(s[b - 1]));
                }
            } else if a < ps {
                assert(t[a] == s[a] && t[b] == s[b - 1]);
            } else {
                assert(t[a] == s[a - 1] && t[b] == s[b - 1]);
            }
            lemma_key_lt_total(tally_key(t[a]), tally_key(t[b]));
        }
        assert forall|a: int| 0 <= a < t.len() implies (#[trigger] t[a]).ok == font_counts(nd, tally_key(t[a])).0
            && t[a].total == font_counts(nd, tally_key(t[a])).1 && t[a].total > 0 by {
            if a < ps {
                assert(t[a] == s[a]);
            } else if a > ps {
                assert(t[a] == s[a - 1]);
            }
        }
        assert forall|q: int| 0 <= q < nd.len() implies exists|a: int| 0 <= a < t.len() && tally_key(t[a]) == font_key(#[trigger] nd[q]) by {
            if q < done.len() {
                assert(nd[q] == done[q]);
                let a = choose|a: int| 0 <= a < s.len() && tally_key(s[a]) == font_key(done[q]);
                if a < ps {
                    assert(t[a] == s[a]);
                } else {
                    assert(t[a + 1] == s[a]);
                }
            } else {
                assert(tally_key(t[ps]) == font_key(nd[q]));
            }
        }
    }
}

/// Per glyph and typeface: how many of the rows' positions were read
/// correctly, and how many there were.
pub fn font_tally(rows: &Vec<Row>) -> (ts: Vec<FontTally>)
    requires
        all_positions(rows@).len() <= usize::MAX,
    ensures
        tallies_of(ts@, all_positions(rows@)),
        tallies_sorted(ts@),
{
    let mut ts: Vec<FontTally> = Vec::new();
    let ghost mut done: Seq<PositionView> = Seq::empty();
    let n = rows.len();
    let mut i: usize = 0;
    proof {
        assert(rows@.take(0) =~= Seq::<Row>::empty());
    }
    while i < n
        invariant
            n == rows@.len(),
            i <= n,
            all_positions(rows@).len() <= usize::MAX,
            done == all_positions(rows@.take(i as int)),
            tallies_of(ts@, done),
            tallies_sorted(ts@),
        decreases n - i,
    {
        let ps = &rows[i].score.positions;
        proof {
            lemma_all_positions_prefix(rows@, i + 1);
            assert(rows@.take(i + 1).drop_last() =~= rows@.take(i as int));
        }
        let ghost base = done;
        let mut j: usize = 0;
        while j < ps.len()
            invariant
                j <= ps@.len(),
                done == base + ps@.take(j as int),
                base + ps@ == all_positions(rows@.take(i + 1)),
                all_positions(rows@.take(i + 1)).len() <= usize::MAX,
                tallies_of(ts@, done),
                tallies_sorted(ts@),
            decreases ps@.len() - j,
        {
            count_position(&mut ts, &ps[j], Ghost(done));
            proof {
                assert(base + ps@.take(j + 1) =~= (base + ps@.take(j as int)).push(ps@[j as int]));
                done = done.push(ps@[j as int]);
            }
            j += 1;
        }
        assert(ps@.take(ps@.len() as int) =~= ps@);
        i += 1;
    }
    assert(rows@.take(n as int) =~= rows@);
    ts
}

/// The positions of a prefix of the rows are no more than those of all rows.
proof fn lemma_all_positions_prefix(rows: Seq<Row>, i: int)
    requires
        0 <= i <= rows.len(),
    ensures
        all_positions(rows.take(i)).len() <= all_positions(rows).len(),
    decreases rows.len(),
{
    if i < rows.len() {
        lemma_all_positions_prefix(rows.drop_last(), i);
        assert(rows.drop_last().take(i) =~= rows.take(i));
    } else {
        assert(rows.take(i) =~= rows);
    }
}

/// A count used as a denominator: runs of a group that has none count as one.
pub open spec fn at_least_one(n: usize) -> u128 {
    if n == 0 {
        1
    } else {
        n as u128
    }
}

/// What the leaderboard ranks a model's group by: the share of runs that
/// read the whole word, then the mean number of characters read.
pub open spec fn leader_key(a: Agg) -> RankKey {
    RankKey { major: (a.exact as u128, at_least_one(a.runs)), minor: (a.chars, at_least_one(a.runs)) }
}

/// The leaderboard's order of `groups`, best first, as their indices;
/// groups that tie stay in the order given.
pub fn leaderboard_order(groups: &Vec<Agg>) -> (p: Vec<usize>)
    ensures
        ranks(groups@.map_values(|a: Agg| leader_key(a)), true, p@),
        p@.len() == groups@.len(),
        forall|i: int| 0 <= i < p@.len() ==> p@[i] < groups@.len(),
        forall|i: int, j: int| 0 <= i < j < p@.len() ==> p@[i] != p@[j],
        forall|i: int, j: int|
            #![trigger p@[i], p@[j]]
            0 <= i < j < p@.len() ==> {
                let a = groups@[p@[i] as int];
                let b = groups@[p@[j] as int];
                let na = runs_or_one(a.runs);
                let nb = runs_or_one(b.runs);
                &&& !(b.exact * na > a.exact * nb)
                &&& b.exact * na == a.exact * nb ==> !(b.chars * na > a.chars * nb)
                &&& (b.exact * na == a.exact * nb && b.chars * na == a.chars * nb) ==> p@[i] < p@[j]
            },
{
    let mut keys: Vec<RankKey> = Vec::new();
    let mut i: usize = 0;
    while i < groups.len()
        invariant
            i <= groups@.len(),
            keys@ == groups@.take(i as int).map_values(|a: Agg| leader_key(a)),
        decreases groups@.len() - i,
    {
        let a = &groups[i];
        let n: u128 = if a.runs == 0 { 1 } else { a.runs as u128 };
        keys.push(RankKey { major: (a.exact as u128, n), minor: (a.chars, n) });
        assert(groups@.take(i + 1) =~= groups@.take(i as int).push(groups@[i as int]));
        i += 1;
    }
    assert(groups@.take(groups@.len() as int) =~= groups@);
    let p = rank(&keys, true);
    proof {
        law_leaderboard_order(groups@, p@);
    }
    p
}

/// What the typeface table ranks an entry by: the share of reads that were
/// right.
pub open spec fn hardness_key(t: FontTally) -> RankKey {
    RankKey { major: (t.ok as u128, at_least_one(t.total)), minor: (0, 1) }
}

/// The typeface table's order of `ts`, hardest (lowest share right) first,
/// as their indices; entries that tie stay in the order given.
pub fn hardest_order(ts: &Vec<FontTally>) -> (p: Vec<usize>)
    ensures
        ranks(ts@.map_values(|t: FontTally| hardness_key(t)), false, p@),
        p@.len() == ts@.len(),
        forall|i: int| 0 <= i < p@.len() ==> p@[i] < ts@.len(),
        forall|i: int, j: int| 0 <= i < j < p@.len() ==> p@[i] != p@[j],
        forall|i: int, j: int|
            #![trigger p@[i], p@[j]]
            0 <= i < j < p@.len() ==> {
                let a = ts@[p@[i] as int];
                let b = ts@[p@[j] as int];
                let na = runs_or_one(a.total);
                let nb = runs_or_one(b.total);
                &&& !(b.ok * na < a.ok * nb)
                &&& b.ok * na == a.ok * nb ==> p@[i] < p@[j]
            },
{
    let mut keys: Vec<RankKey> = Vec::new();
    let mut i: usize = 0;
    while i < ts.len()
        invariant
            i <= ts@.len(),
            keys@ == ts@.take(i as int).map_values(|t: FontTally| hardness_key(t)),
        decreases ts@.len() - i,
    {
        let t = &ts[i];
        let n: u128 = if t.total == 0 { 1 } else { t.total as u128 };
        keys.push(RankKey { major: (t.ok as u128, n), minor: (0, 1) });
        assert(ts@.take(i + 1) =~= ts@.take(i as int).push(ts@[i as int]));
        i += 1;
    }
    assert(ts@.take(ts@.len() as int) =~= ts@);
    let p = rank(&keys, false);
    proof {
        law_hardest_order(ts@, p@);
    }
    p
}

/// The runs of a group as a denominator: a group with none counts as one.
pub open spec fn runs_or_one(n: usize) -> int {
    if n == 0 {
        1
    } else {
        n as int
    }
}

/// The leaderboard's order, over the groups themselves: it lists every
/// group once; a group never comes after one with a lower share of exact
/// solves, nor, on equal shares, after one with fewer characters read per
/// run (shares and means compared exactly, with runs of 0 counted as 1); and
/// groups equal on both keep the order they were given in.
pub proof fn law_leaderboard_order(groups: Seq<Agg>, p: Seq<usize>)
    requires
        ranks(groups.map_values(|a: Agg| leader_key(a)), true, p),
    ensures
        p.len() == groups.len(),
        forall|i: int| 0 <= i < p.len() ==> p[i] < groups.len(),
        forall|i: int, j: int| 0 <= i < j < p.len() ==> p[i] != p[j],
        forall|i: int, j: int|
            #![trigger p[i], p[j]]
            0 <= i < j < p.len() ==> {
                let a = groups[p[i] as int];
                let b = groups[p[j] as int];
                let na = runs_or_one(a.runs);
                let nb = runs_or_one(b.runs);
                &&& !(b.exact * na > a.exact * nb)
                &&& b.exact * na == a.exact * nb ==> !(b.chars * na > a.chars * nb)
                &&& (b.exact * na == a.exact * nb && b.chars * na == a.chars * nb) ==> p[i] < p[j]
            },
{
    let keys = groups.map_values(|a: Agg| leader_key(a));
    assert forall|i: int, j: int| #![trigger p[i], p[j]] 0 <= i < j < p.len() implies {
        let a = groups[p[i] as int];
        let b = groups[p[j] as int];
        let na = runs_or_one(a.runs);
        let nb = runs_or_one(b.runs);
        &&& !(b.exact * na > a.exact * nb)
        &&& b.exact * na == a.exact * nb ==> !(b.chars * na > a.chars * nb)
        &&& (b.exact * na == a.exact * nb && b.chars * na == a.chars * nb) ==> p[i] < p[j]
    } by {
        assert(keys[p[i] as int] == leader_key(groups[p[i] as int]));
        assert(keys[p[j] as int] == leader_key(groups[p[j] as int]));
        assert(preference(true, keys[p[i] as int], keys[p[j] as int]) >= 0);
    }
}

/// The typeface table's order, over the entries themselves: it lists every
/// entry once; an entry never comes after one with a lower share of right
/// reads (compared exactly, with a total of 0 counted as 1); and entries
/// with equal shares keep the order they were given in.
pub proof fn law_hardest_order(ts: Seq<FontTally>, p: Seq<usize>)
    requires
        ranks(ts.map_values(|t: FontTally| hardness_key(t)), false, p),
    ensures
        p.len() == ts.len(),
        forall|i: int| 0 <= i < p.len() ==> p[i] < ts.len(),
        forall|i: int, j: int| 0 <= i < j < p.len() ==> p[i] != p[j],
        forall|i: int, j: int|
            #![trigger p[i], p[j]]
            0 <= i < j < p.len() ==> {
                let a = ts[p[i] as int];
                let b = ts[p[j] as int];
                let na = runs_or_one(a.total);
                let nb = runs_or_one(b.total);
                &&& !(b.ok * na < a.ok * nb)
                &&& b.ok * na == a.ok * nb ==> p[i] < p[j]
            },
{
    let keys = ts.map_values(|t: FontTally| hardness_key(t));
    assert forall|i: int, j: int| #![trigger p[i], p[j]] 0 <= i < j < p.len() implies {
        let a = ts[p[i] as int];
        let b = ts[p[j] as int];
        let na = runs_or_one(a.total);
        let nb = runs_or_one(b.total);
        &&& !(b.ok * na < a.ok * nb)
        &&& b.ok * na == a.ok * nb ==> p[i] < p[j]
    } by {
        assert(keys[p[i] as int] == hardness_key(ts[p[i] as int]));
        assert(keys[p[j] as int] == hardness_key(ts[p[j] as int]));
        assert(preference(false, keys[p[i] as int], keys[p[j] as int]) >= 0);
    }
}

/// Tallying no rows gives zero everywhere.
pub proof fn law_agg_empty()
    ensures
        spec_agg(Seq::<Row>::empty()) == (Agg {
            runs: 0,
            exact: 0,
            chars: 0,
            frames: 0,
            spatial: 0,
            wall: 0,
            out_tok: 0,
            shell: 0,
            ffmpeg: 0,
            imgs: 0,
            diffs: 0,
            fails: 0,
            walls: 0,
        }),
{
}

/// Tallying one more row adds that row to each tally, each from its own
/// field: one run; one exact solve when the word was exact; its right
/// characters, right frames and right places; its wall time, output tokens,
/// shell commands, ffmpeg invocations and images read; one differencing run
/// when it used frame differencing; one failure when it does not count as
/// scored (a cheated run, or a run without a parsed answer that did not
/// score); one wall hit when it timed out.
pub proof fn law_agg_push(rows: Seq<Row>, r: Row)
    requires
        rows.len() < usize::MAX,
        agg_fits(rows.push(r)),
    ensures
        ({
            let a = spec_agg(rows);
            let b = spec_agg(rows.push(r));
            &&& b.runs == a.runs + 1
            &&& b.exact == a.exact + (if r.score.word_exact { 1int } else { 0int })
            &&& b.chars == a.chars + r.score.chars_correct
            &&& b.frames == a.frames + r.score.frames_correct
            &&& b.spatial == a.spatial + r.score.spatial_correct
            &&& b.wall == a.wall + r.wall_ms
            &&& b.out_tok == a.out_tok + r.usage.output_tokens
            &&& b.shell == a.shell + r.behavior.shell_commands
            &&& b.ffmpeg == a.ffmpeg + r.behavior.ffmpeg_invocations
            &&& b.imgs == a.imgs + r.behavior.images_read
            &&& b.diffs == a.diffs + (if r.behavior.used_frame_diff { 1int } else { 0int })
            &&& b.fails == a.fails + (if r.outcome == Outcome::Cheated || (!r.score.parsed && r.outcome
                != Outcome::Scored) {
                1int
            } else {
                0int
            })
            &&& b.walls == a.walls + (if r.outcome == Outcome::TimedOut { 1int } else { 0int })
        }),
{
    let all = rows.push(r);
    assert(all.drop_last() =~= rows);
    assert(all.last() == r);
    lemma_count_le(all, |r: Row| indicator(r.score.word_exact));
    lemma_count_le(all, |r: Row| indicator(r.behavior.used_frame_diff));
    lemma_count_le(all, |r: Row| indicator(spec_effective(r) != Outcome::Scored));
    lemma_count_le(all, |r: Row| indicator(r.outcome == Outcome::TimedOut));
    lemma_small_sum(all, |r: Row| r.score.chars_correct as int);
    lemma_small_sum(all, |r: Row| r.score.frames_correct as int);
    lemma_small_sum(all, |r: Row| r.score.spatial_correct as int);
    lemma_small_sum(all, |r: Row| r.behavior.shell_commands as int);
    lemma_small_sum(all, |r: Row| r.behavior.ffmpeg_invocations as int);
    lemma_small_sum(all, |r: Row| r.behavior.images_read as int);
    lemma_total_prefix(all, |r: Row| r.wall_ms as int, rows.len() as int);
    lemma_total_prefix(all, |r: Row| r.usage.output_tokens as int, rows.len() as int);
    assert(all.take(rows.len() as int) =~= rows);
    lemma_count_le(rows, |r: Row| indicator(r.score.word_exact));
    lemma_count_le(rows, |r: Row| indicator(r.behavior.used_frame_diff));
    lemma_count_le(rows, |r: Row| indicator(spec_effective(r) != Outcome::Scored));
    lemma_count_le(rows, |r: Row| indicator(r.outcome == Outcome::TimedOut));
    lemma_small_sum(rows, |r: Row| r.score.chars_correct as int);
    lemma_small_sum(rows, |r: Row| r.score.frames_correct as int);
    lemma_small_sum(rows, |r: Row| r.score.spatial_correct as int);
    lemma_small_sum(rows, |r: Row| r.behavior.shell_commands as int);
    lemma_small_sum(rows, |r: Row| r.behavior.ffmpeg_invocations as int);
    lemma_small_sum(rows, |r: Row| r.behavior.images_read as int);
    assert((rows.len() + 1) * 0x1_0000_0000_0000_0000 <= u128::MAX) by (nonlinear_arith)
        requires
            rows.len() < usize::MAX,
            usize::MAX <= u64::MAX,
    ;
    assert(rows.len() * 0x1_0000_0000_0000_0000 <= (rows.len() + 1) * 0x1_0000_0000_0000_0000) by (nonlinear_arith);
    let a = spec_agg(rows);
    let b = spec_agg(all);
    assert(b.runs == a.runs + 1);
    assert(b.exact == a.exact + (if r.score.word_exact { 1int } else { 0int }));
    assert(b.chars == a.chars + r.score.chars_correct);
    assert(b.wall == a.wall + r.wall_ms);
    assert(b.out_tok == a.out_tok + r.usage.output_tokens);
    assert(b.fails == a.fails + indicator(spec_effective(r) != Outcome::Scored));
}

/// A row counts as it was recorded, except that a run that produced a
/// parsed answer counts as scored even when it was recorded as timed out or
/// crashed, and a cheated run always counts as cheated.
pub proof fn law_effective(r: Row)
    ensures
        r.outcome == Outcome::Cheated ==> spec_effective(r) == Outcome::Cheated,
        r.outcome != Outcome::Cheated && r.score.parsed ==> spec_effective(r) == Outcome::Scored,
        r.outcome != Outcome::Cheated && !r.score.parsed ==> spec_effective(r) == r.outcome,
{
}

/// The model and level lists are read off the rows, one entry per row.
pub proof fn law_row_fields(rows: Seq<Row>)
    ensures
        row_models(rows).len() == rows.len(),
        row_levels(rows).len() == rows.len(),
        forall|i: int| 0 <= i < rows.len() ==> #[trigger] row_models(rows)[i] == rows[i].model@,
        forall|i: int| 0 <= i < rows.len() ==> #[trigger] row_levels(rows)[i] == rows[i].level,
{
}

/// For glyph-and-typeface key `k`: the first count is the number of
/// positions at that glyph in that typeface whose character was read
/// right, the second the number of positions at that glyph in that
/// typeface.
pub proof fn law_font_counts(ps: Seq<PositionView>, k: (usize, Seq<char>))
    ensures
        font_counts(ps, k).0 == ps.filter(|p: PositionView| p.index == k.0 && p.font@ == k.1 && p.char_ok).len(),
        font_counts(ps, k).1 == ps.filter(|p: PositionView| p.index == k.0 && p.font@ == k.1).len(),
    decreases ps.len(),
{
    let f0 = |p: PositionView| p.index == k.0 && p.font@ == k.1 && p.char_ok;
    let f1 = |p: PositionView| p.index == k.0 && p.font@ == k.1;
    if ps.len() == 0 {
        reveal(Seq::filter);
    } else {
        law_font_counts(ps.drop_last(), k);
        assert(ps =~= ps.drop_last().push(ps.last()));
        ps.drop_last().lemma_filter_push(ps.last(), f0);
        ps.drop_last().lemma_filter_push(ps.last(), f1);
    }
}

/// The positions of the rows are those of each row in turn: their number is
/// the sum of the rows' position counts.
pub proof fn law_all_positions_push(rows: Seq<Row>, r: Row)
    ensures
        all_positions(rows.push(r)) == all_positions(rows) + r.score.positions@,
{
    assert(rows.push(r).drop_last() =~= rows);
}

/// Some entry of `ts` is for glyph `index` in typeface `font`.
pub open spec fn has_entry(ts: Seq<FontTally>, index: usize, font: Seq<char>) -> bool {
    exists|a: int| 0 <= a < ts.len() && ts[a].index == index && ts[a].font@ == font
}

/// The typeface tallies of a list of positions: one entry per glyph and
/// typeface that occurs, and no other; each entry's `total` is the number of
/// positions at that glyph in that typeface, and its `ok` the number of
/// those whose character was read right.
pub proof fn law_tallies(ts: Seq<FontTally>, ps: Seq<PositionView>)
    requires
        tallies_of(ts, ps),
    ensures
        forall|a: int, b: int|
            0 <= a < b < ts.len() ==> !(ts[a].index == ts[b].index && ts[a].font@ == ts[b].font@),
        forall|a: int|
            0 <= a < ts.len() ==> {
                &&& (#[trigger] ts[a]).ok == ps.filter(
                    |p: PositionView| p.index == ts[a].index && p.font@ == ts[a].font@ && p.char_ok,
                ).len()
                &&& ts[a].total == ps.filter(|p: PositionView| p.index == ts[a].index && p.font@ == ts[a].font@).len()
                &&& ts[a].total > 0
            },
        forall|q: int| 0 <= q < ps.len() ==> has_entry(ts, (#[trigger] ps[q]).index, ps[q].font@),
{
    assert forall|a: int, b: int| 0 <= a < b < ts.len() implies !(ts[a].index == ts[b].index && ts[a].font@
        == ts[b].font@) by {
        assert(tally_key(ts[a]) != tally_key(ts[b]));
    }
    assert forall|a: int| 0 <= a < ts.len() implies {
        &&& (#[trigger] ts[a]).ok == ps.filter(
            |p: PositionView| p.index == ts[a].index && p.font@ == ts[a].font@ && p.char_ok,
        ).len()
        &&& ts[a].total == ps.filter(|p: PositionView| p.index == ts[a].index && p.font@ == ts[a].font@).len()
        &&& ts[a].total > 0
    } by {
        law_font_counts(ps, tally_key(ts[a]));
    }
    assert forall|q: int| 0 <= q < ps.len() implies has_entry(ts, (#[trigger] ps[q]).index, ps[q].font@) by {
        let a = choose|a: int| 0 <= a < ts.len() && tally_key(ts[a]) == font_key(ps[q]);
        assert(ts[a].index == ps[q].index && ts[a].font@ == ps[q].font@);
    }
}

} // verus!

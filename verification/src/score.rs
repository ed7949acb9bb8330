//! Turn a model's answer into the numbers we track.
//!
//! Word, temporal and spatial accuracy are kept as three independent scores
//! rather than folded together: a model that reads the word but cannot say
//! where it saw it is telling us something different from one that localises
//! glyphs it cannot read.

use vstd::prelude::*;
use vstd::utf8::encode_utf8;
use crate::runner::texts;
use crate::text::{append_chars, ascii_lower_only, ascii_lowered, chars_of, is_ascii_char, is_ascii_lower, lemma_ascii_lower_only_is_lower, lemma_ascii_lower_only_keeps, lemma_ascii_lowered_keeps, same_chars, keep_ascii_lowercase, lowercase, string_of, to_lowercase};
use crate::truth::{find_target, lemma_find_target, level_index, levels_wf, GroundTruth, LevelTruth};

verus! {

/// A frame guess counts as correct within this many frames of truth.
pub const FRAME_TOLERANCE: i64 = 2;

/// One letter of a model's answer. The reported position, when there is one,
/// is judged outside this library (it is a pair of real numbers); see the
/// `within` argument of [`score`].
#[derive(Debug, Clone)]
pub struct AnswerLetter {
    pub c: String,
    pub frame: Option<i64>,
}

/// A model's answer: the word, and the letters in temporal order.
#[derive(Debug, Clone)]
pub struct Answer {
    pub word: String,
    pub letters: Vec<AnswerLetter>,
}

impl Answer {
    /// An answer counts only when it names letters or a word.
    pub fn has_content(&self) -> (r: bool)
        ensures
            r == (self.letters@.len() > 0 || self.word@.len() > 0),
    {
        self.letters.len() > 0 || self.word.unicode_len() > 0
    }
}

/// How one position of the word was answered.
#[derive(Debug, Clone)]
pub struct PositionScore {
    pub index: usize,
    pub expected: String,
    pub got: Option<String>,
    pub font: String,
    pub char_ok: bool,
    pub frame_ok: bool,
    pub spatial_ok: bool,
    pub frame_delta: Option<i64>,
}

/// A `PositionScore` with its texts taken as character sequences.
pub struct PositionState {
    pub index: usize,
    pub expected: Seq<char>,
    pub got: Option<Seq<char>>,
    pub font: Seq<char>,
    pub char_ok: bool,
    pub frame_ok: bool,
    pub spatial_ok: bool,
    pub frame_delta: Option<i64>,
}

impl View for PositionScore {
    type V = PositionState;

    open spec fn view(&self) -> PositionState {
        PositionState {
            index: self.index,
            expected: self.expected@,
            got: match self.got {
                Some(g) => Some(g@),
                None => None,
            },
            font: self.font@,
            char_ok: self.char_ok,
            frame_ok: self.frame_ok,
            spatial_ok: self.spatial_ok,
            frame_delta: self.frame_delta,
        }
    }
}

/// The scores of one run. The normalised Levenshtein similarity is
/// `1 - levenshtein_distance / levenshtein_max_len` when `parsed` holds.
#[derive(Debug, Clone)]
pub struct Score {
    pub parsed: bool,
    pub word_exact: bool,
    pub word_normalized: String,
    pub levenshtein_distance: usize,
    pub levenshtein_max_len: usize,
    pub chars_correct: usize,
    pub chars_total: usize,
    pub first_error_index: Option<usize>,
    pub frames_correct: usize,
    pub spatial_correct: usize,
    pub positions: Vec<PositionScore>,
}

/// A `Score` with its texts taken as character sequences.
pub struct ScoreState {
    pub parsed: bool,
    pub word_exact: bool,
    pub word_normalized: Seq<char>,
    pub levenshtein_distance: usize,
    pub levenshtein_max_len: usize,
    pub chars_correct: usize,
    pub chars_total: usize,
    pub first_error_index: Option<usize>,
    pub frames_correct: usize,
    pub spatial_correct: usize,
    pub positions: Seq<PositionState>,
}

impl View for Score {
    type V = ScoreState;

    open spec fn view(&self) -> ScoreState {
        ScoreState {
            parsed: self.parsed,
            word_exact: self.word_exact,
            word_normalized: self.word_normalized@,
            levenshtein_distance: self.levenshtein_distance,
            levenshtein_max_len: self.levenshtein_max_len,
            chars_correct: self.chars_correct,
            chars_total: self.chars_total,
            first_error_index: self.first_error_index,
            frames_correct: self.frames_correct,
            spatial_correct: self.spatial_correct,
            positions: self.positions@.map_values(|p: PositionScore| p@),
        }
    }
}

/// The score with nothing in it, over a word of `total` bytes.
pub open spec fn empty_score(total: usize) -> ScoreState {
    ScoreState {
        parsed: false,
        word_exact: false,
        word_normalized: Seq::empty(),
        levenshtein_distance: 0,
        levenshtein_max_len: 0,
        chars_correct: 0,
        chars_total: total,
        first_error_index: None,
        frames_correct: 0,
        spatial_correct: 0,
        positions: Seq::empty(),
    }
}

impl Score {
    /// A score with nothing in it, over a word of `total` bytes.
    pub fn empty(total: usize) -> (s: Score)
        ensures
            s@ == empty_score(total),
    {
        let s = Score {
            parsed: false,
            word_exact: false,
            word_normalized: String::new(),
            levenshtein_distance: 0,
            levenshtein_max_len: 0,
            chars_correct: 0,
            chars_total: total,
            first_error_index: None,
            frames_correct: 0,
            spatial_correct: 0,
            positions: Vec::new(),
        };
        assert(s@.positions =~= Seq::<PositionState>::empty());
        s
    }
}

impl Default for Score {
    fn default() -> (s: Score)
        ensures
            s@ == empty_score(0),
    {
        Score::empty(0)
    }
}

/// Lowercase, then keep only `a` to `z`.
pub open spec fn normalized(s: Seq<char>) -> Seq<char> {
    ascii_lower_only(lowercase(s))
}

/// Lowercase, strip anything that isn't a-z. Models like to answer
/// "theo loves obsidian" or wrap the word in quotes.
///
/// The result is made of `a` to `z` only, and a text made of `a` to `z` only
/// comes back unchanged, so normalising is idempotent: normalising a
/// normalised word gives it back. On ASCII text, the result is the letters
/// of the text, lowercased.
pub fn normalize(s: &str) -> (r: String)
    ensures
        r@ == normalized(s@),
        forall|i: int| 0 <= i < r@.len() ==> is_ascii_lower(#[trigger] r@[i]),
        (forall|i: int| 0 <= i < s@.len() ==> is_ascii_char(#[trigger] s@[i])) ==> r@ == ascii_lower_only(
            ascii_lowered(s@),
        ),
        (forall|i: int| 0 <= i < s@.len() ==> is_ascii_lower(#[trigger] s@[i])) ==> r@ == s@,
{
    let l = to_lowercase(s);
    let r = keep_ascii_lowercase(l.as_str());
    proof {
        lemma_ascii_lower_only_is_lower(lowercase(s@));
        if forall|i: int| 0 <= i < s@.len() ==> is_ascii_lower(#[trigger] s@[i]) {
            assert forall|i: int| 0 <= i < s@.len() implies is_ascii_char(#[trigger] s@[i]) by {
                assert(is_ascii_lower(s@[i]));
            }
            lemma_ascii_lowered_keeps(s@);
            lemma_ascii_lower_only_keeps(s@);
        }
    }
    r
}

/// The minimum number of insertions, deletions and substitutions of single
/// characters that turn `a` into `b`.
pub open spec fn edit_distance(a: Seq<char>, b: Seq<char>) -> nat
    decreases a.len() + b.len(),
{
    if a.len() == 0 {
        b.len()
    } else if b.len() == 0 {
        a.len()
    } else {
        let sub = edit_distance(a.drop_last(), b.drop_last()) + if a.last() == b.last() {
            0nat
        } else {
            1nat
        };
        let del = edit_distance(a.drop_last(), b) + 1;
        let ins = edit_distance(a, b.drop_last()) + 1;
        if sub <= del && sub <= ins {
            sub
        } else if del <= ins {
            del
        } else {
            ins
        }
    }
}

/// Calls `strsim::levenshtein`, which counts the insertions, deletions and
/// substitutions of characters needed to turn `a` into `b`.
#[verifier::external_body]
fn levenshtein(a: &str, b: &str) -> (d: usize)
    ensures
        d == edit_distance(a@, b@),
{
    strsim::levenshtein(a, b)
}

/// The normalised letters of an answer, concatenated.
pub open spec fn letters_normalized(ls: Seq<AnswerLetter>) -> Seq<char>
    decreases ls.len(),
{
    if ls.len() == 0 {
        Seq::empty()
    } else {
        letters_normalized(ls.drop_last()) + normalized(ls.last().c@)
    }
}

/// The word taken from an answer: its letters when they have as many
/// characters as the target, else its `word` when that is not empty, else its
/// letters.
pub open spec fn chosen_word(a: Answer, target: Seq<char>) -> Seq<char> {
    let from_letters = letters_normalized(a.letters@);
    let from_word = normalized(a.word@);
    if from_letters.len() == target.len() {
        from_letters
    } else if from_word.len() > 0 {
        from_word
    } else {
        from_letters
    }
}

/// The larger length of the two words, and at least one.
pub open spec fn max_len(w: Seq<char>, t: Seq<char>) -> nat {
    let m = if w.len() >= t.len() {
        w.len()
    } else {
        t.len()
    };
    if m >= 1 {
        m
    } else {
        1
    }
}

/// The distance between two frame numbers.
pub open spec fn frame_distance(f: i64, g: i64) -> int {
    if f >= g {
        f - g
    } else {
        g - f
    }
}

/// How position `i` of the word was answered. Positions are index-aligned:
/// the task defines position by temporal order, so the `i`th reported letter
/// is compared to the `i`th target. Spatial credit requires being on the
/// right frame too.
pub open spec fn position_at(
    a: Answer,
    lvl: LevelTruth,
    within: Seq<bool>,
    target: Seq<char>,
    i: int,
) -> PositionState {
    let tg = find_target(lvl.targets@, i);
    let font = match tg {
        Some(k) => lvl.targets@[k].font@,
        None => Seq::empty(),
    };
    if i < a.letters@.len() {
        let al = a.letters@[i];
        let got = normalized(al.c@);
        let frame_delta: Option<i64> = match (tg, al.frame) {
            (Some(k), Some(f)) => Some(frame_distance(f, lvl.targets@[k].frame) as i64),
            _ => None,
        };
        let frame_ok = match frame_delta {
            Some(d) => d <= FRAME_TOLERANCE,
            None => false,
        };
        PositionState {
            index: i as usize,
            expected: seq![target[i]],
            got: Some(got),
            font: font,
            char_ok: got.len() > 0 && got[0] == target[i],
            frame_ok: frame_ok,
            spatial_ok: i < within.len() && within[i] && frame_ok,
            frame_delta: frame_delta,
        }
    } else {
        PositionState {
            index: i as usize,
            expected: seq![target[i]],
            got: None,
            font: font,
            char_ok: false,
            frame_ok: false,
            spatial_ok: false,
            frame_delta: None,
        }
    }
}

/// All positions of the word, in order.
pub open spec fn positions_of(a: Answer, lvl: LevelTruth, within: Seq<bool>, target: Seq<char>) -> Seq<PositionState> {
    Seq::new(target.len(), |i: int| position_at(a, lvl, within, target, i))
}

/// The number of positions whose character is right.
pub open spec fn count_chars(ps: Seq<PositionState>) -> nat
    decreases ps.len(),
{
    if ps.len() == 0 {
        0
    } else {
        count_chars(ps.drop_last()) + if ps.last().char_ok {
            1nat
        } else {
            0nat
        }
    }
}

/// The number of positions whose frame is right.
pub open spec fn count_frames(ps: Seq<PositionState>) -> nat
    decreases ps.len(),
{
    if ps.len() == 0 {
        0
    } else {
        count_frames(ps.drop_last()) + if ps.last().frame_ok {
            1nat
        } else {
            0nat
        }
    }
}

/// The number of positions whose location is right.
pub open spec fn count_spatial(ps: Seq<PositionState>) -> nat
    decreases ps.len(),
{
    if ps.len() == 0 {
        0
    } else {
        count_spatial(ps.drop_last()) + if ps.last().spatial_ok {
            1nat
        } else {
            0nat
        }
    }
}

/// The first position whose character is wrong.
pub open spec fn first_error(ps: Seq<PositionState>) -> Option<int>
    decreases ps.len(),
{
    if ps.len() == 0 {
        None
    } else {
        match first_error(ps.drop_last()) {
            Some(k) => Some(k),
            None => if !ps.last().char_ok {
                Some(ps.len() - 1)
            } else {
                None
            },
        }
    }
}

/// The score of an answer against the truth of one level.
pub open spec fn score_spec(
    answer: Option<Answer>,
    gt: GroundTruth,
    lvl: LevelTruth,
    within: Seq<bool>,
) -> ScoreState {
    let total = encode_utf8(gt.target@).len() as usize;
    match answer {
        None => empty_score(total),
        Some(a) => {
            let target = gt.target@;
            let word = chosen_word(a, target);
            let ps = positions_of(a, lvl, within, target);
            ScoreState {
                parsed: true,
                word_exact: word == target,
                word_normalized: word,
                levenshtein_distance: edit_distance(word, target) as usize,
                levenshtein_max_len: max_len(word, target) as usize,
                chars_correct: count_chars(ps) as usize,
                chars_total: total,
                first_error_index: match first_error(ps) {
                    Some(k) => Some(k as usize),
                    None => None,
                },
                frames_correct: count_frames(ps) as usize,
                spatial_correct: count_spatial(ps) as usize,
                positions: ps,
            }
        },
    }
}

/// Every reported frame can be compared with its target's frame without
/// overflow.
pub open spec fn frames_comparable(a: Answer, lvl: LevelTruth, n: int) -> bool {
    forall|i: int|
        0 <= i < n && i < a.letters@.len() ==> match (find_target(lvl.targets@, i), #[trigger] a.letters@[i].frame) {
            (Some(k), Some(f)) => i64::MIN < f - lvl.targets@[k].frame <= i64::MAX,
            _ => true,
        }
}

/// The answer behind an optional reference.
pub open spec fn deref_answer(a: Option<&Answer>) -> Option<Answer> {
    match a {
        Some(x) => Some(*x),
        None => None,
    }
}

/// The normalised letters of an answer, concatenated.
fn letters_word(ls: &Vec<AnswerLetter>) -> (w: Vec<char>)
    ensures
        w@ == letters_normalized(ls@),
{
    let mut w: Vec<char> = Vec::new();
    let n = ls.len();
    let mut i: usize = 0;
    while i < n
        invariant
            n == ls@.len(),
            i <= n,
            w@ == letters_normalized(ls@.take(i as int)),
        decreases n - i,
    {
        let l = normalize(ls[i].c.as_str());
        append_chars(&mut w, l.as_str());
        assert(ls@.take(i + 1).drop_last() =~= ls@.take(i as int));
        i += 1;
    }
    assert(ls@.take(n as int) =~= ls@);
    w
}

/// How position `i` of the word was answered.
fn score_position(
    ans: &Answer,
    lvl: &LevelTruth,
    within: &Vec<bool>,
    target: &Vec<char>,
    i: usize,
) -> (ps: PositionScore)
    requires
        i < target@.len(),
        frames_comparable(*ans, *lvl, target@.len() as int),
    ensures
        ps@ == position_at(*ans, *lvl, within@, target@, i as int),
{
    let tg = lvl.target_for(i);
    let font = match tg {
        Some(t) => t.font.clone(),
        None => String::new(),
    };
    let expected = string_of(&vec![target[i]]);
    let mut ps = PositionScore {
        index: i,
        expected: expected,
        got: None,
        font: font,
        char_ok: false,
        frame_ok: false,
        spatial_ok: false,
        frame_delta: None,
    };
    if i < ans.letters.len() {
        let al = &ans.letters[i];
        let got = normalize(al.c.as_str());
        let gv = chars_of(got.as_str());
        ps.char_ok = gv.len() > 0 && gv[0] == target[i];
        ps.got = Some(got);
        match (tg, al.frame) {
            (Some(t), Some(f)) => {
                assert(i64::MIN < f - t.frame <= i64::MAX);
                let d: i64 = if f >= t.frame {
                    f - t.frame
                } else {
                    t.frame - f
                };
                ps.frame_delta = Some(d);
                ps.frame_ok = d <= FRAME_TOLERANCE;
            },
            _ => {},
        }
        // Spatial credit requires being on the right frame too: the right
        // coordinates on the wrong frame is a coincidence.
        if i < within.len() && within[i] && ps.frame_ok {
            ps.spatial_ok = true;
        }
    }
    assert(ps@.expected =~= seq![target@[i as int]]);
    ps
}

/// What one more position adds to the counts and the first error.
proof fn lemma_counts_step(all: Seq<PositionState>, i: int)
    requires
        0 <= i < all.len(),
    ensures
        count_chars(all.take(i + 1)) == count_chars(all.take(i)) + if all[i].char_ok {
            1nat
        } else {
            0nat
        },
        count_frames(all.take(i + 1)) == count_frames(all.take(i)) + if all[i].frame_ok {
            1nat
        } else {
            0nat
        },
        count_spatial(all.take(i + 1)) == count_spatial(all.take(i)) + if all[i].spatial_ok {
            1nat
        } else {
            0nat
        },
        first_error(all.take(i + 1)) == (match first_error(all.take(i)) {
            Some(k) => Some(k),
            None => if !all[i].char_ok {
                Some(i)
            } else {
                None
            },
        }),
{
    assert(all.take(i + 1).drop_last() =~= all.take(i));
    assert(all.take(i + 1).last() == all[i]);
}

/// Scores an answer against the truth of one level. `within[i]` says whether
/// the `i`th letter was reported within the spatial tolerance of its target's
/// centre (false where the letter, its coordinates or the target are missing).
pub fn score(answer: Option<&Answer>, gt: &GroundTruth, lvl: &LevelTruth, within: &Vec<bool>) -> (sc: Score)
    requires
        answer matches Some(a) ==> frames_comparable(*a, *lvl, gt.target@.len() as int),
    ensures
        sc@ == score_spec(deref_answer(answer), *gt, *lvl, within@),
{
    let total = gt.target.as_str().len();
    let ans = match answer {
        None => {
            return Score::empty(total);
        },
        Some(a) => a,
    };
    let target = chars_of(gt.target.as_str());

    // Prefer the letters array as the source of truth for the word: it is
    // what carries localisation. Fall back to `word` when the array is
    // missing or the wrong length.
    let from_letters = letters_word(&ans.letters);
    let nw = normalize(ans.word.as_str());
    let from_word = chars_of(nw.as_str());
    let word: Vec<char> = if from_letters.len() == target.len() {
        from_letters
    } else if from_word.len() > 0 {
        from_word
    } else {
        from_letters
    };
    let word_exact = same_chars(&word, &target);
    let word_s = string_of(&word);
    let mut maxlen: usize = if word.len() >= target.len() {
        word.len()
    } else {
        target.len()
    };
    if maxlen < 1 {
        maxlen = 1;
    }
    let dist = levenshtein(word_s.as_str(), gt.target.as_str());

    let ghost all = positions_of(*ans, *lvl, within@, target@);
    let n = target.len();
    let mut positions: Vec<PositionScore> = Vec::new();
    let mut chars_correct: usize = 0;
    let mut frames_correct: usize = 0;
    let mut spatial_correct: usize = 0;
    let mut first_error_index: Option<usize> = None;
    let mut i: usize = 0;
    while i < n
        invariant
            n == target@.len(),
            target@ == gt.target@,
            all == positions_of(*ans, *lvl, within@, target@),
            frames_comparable(*ans, *lvl, target@.len() as int),
            i <= n,
            positions@.map_values(|p: PositionScore| p@) == all.take(i as int),
            chars_correct == count_chars(all.take(i as int)),
            frames_correct == count_frames(all.take(i as int)),
            spatial_correct == count_spatial(all.take(i as int)),
            chars_correct <= i,
            frames_correct <= i,
            spatial_correct <= i,
            first_error_index == (match first_error(all.take(i as int)) {
                Some(k) => Some(k as usize),
                None => None::<usize>,
            }),
        decreases n - i,
    {
        let ps = score_position(ans, lvl, within, &target, i);
        proof {
            assert(all[i as int] == ps@);
            lemma_counts_step(all, i as int);
        }
        if ps.char_ok {
            chars_correct += 1;
        } else if first_error_index.is_none() {
            first_error_index = Some(i);
        }
        if ps.frame_ok {
            frames_correct += 1;
        }
        if ps.spatial_ok {
            spatial_correct += 1;
        }
        let ghost before = positions@.map_values(|p: PositionScore| p@);
        positions.push(ps);
        assert(positions@.map_values(|p: PositionScore| p@) =~= before.push(ps@));
        i += 1;
    }
    assert(all.take(n as int) =~= all);
    Score {
        parsed: true,
        word_exact: word_exact,
        word_normalized: word_s,
        levenshtein_distance: dist,
        levenshtein_max_len: maxlen,
        chars_correct: chars_correct,
        chars_total: total,
        first_error_index: first_error_index,
        frames_correct: frames_correct,
        spatial_correct: spatial_correct,
        positions: positions,
    }
}

/// The state of a scan for balanced braces after reading `s`: the positions
/// of the `{` still open, and the spans `(start, end)` closed so far, in the
/// order they closed.
pub open spec fn brace_scan(s: Seq<char>) -> (Seq<int>, Seq<(int, int)>)
    decreases s.len(),
{
    if s.len() == 0 {
        (Seq::empty(), Seq::empty())
    } else {
        let (stack, spans) = brace_scan(s.drop_last());
        let i = s.len() - 1;
        if s.last() == '{' {
            (stack.push(i), spans)
        } else if s.last() == '}' && stack.len() > 0 {
            (stack.drop_last(), spans.push((stack.last(), i)))
        } else {
            (stack, spans)
        }
    }
}

/// The balanced `{...}` fragments of `text`, newest (latest closing) first.
pub open spec fn json_fragments(text: Seq<char>) -> Seq<Seq<char>> {
    let spans = brace_scan(text).1.reverse();
    spans.map_values(|sp: (int, int)| text.subrange(sp.0, sp.1 + 1))
}

/// Every balanced span runs from a `{` to a later `}` of the text.
pub proof fn lemma_brace_scan(s: Seq<char>)
    ensures
        forall|k: int|
            0 <= k < brace_scan(s).0.len() ==> 0 <= #[trigger] brace_scan(s).0[k] < s.len()
                && s[brace_scan(s).0[k]] == '{',
        forall|k: int|
            0 <= k < brace_scan(s).1.len() ==> {
                let sp = #[trigger] brace_scan(s).1[k];
                0 <= sp.0 < sp.1 < s.len() && s[sp.0] == '{' && s[sp.1] == '}'
            },
    decreases s.len(),
{
    if s.len() > 0 {
        let p = s.drop_last();
        lemma_brace_scan(p);
        let (stack, spans) = brace_scan(p);
        assert forall|k: int| 0 <= k < stack.len() implies stack[k] < s.len() - 1 && s[stack[k]]
            == '{' by {
            assert(s[stack[k]] == p[stack[k]]);
        }
        assert forall|k: int| 0 <= k < spans.len() implies s[spans[k].0] == '{' && s[spans[k].1]
            == '}' by {
            assert(s[spans[k].0] == p[spans[k].0]);
            assert(s[spans[k].1] == p[spans[k].1]);
        }
    }
}

/// Every candidate fragment begins with `{` and ends with `}`.
pub proof fn lemma_fragments_are_braced(text: Seq<char>)
    ensures
        forall|k: int|
            0 <= k < json_fragments(text).len() ==> {
                let f = #[trigger] json_fragments(text)[k];
                f.len() >= 2 && f[0] == '{' && f[f.len() - 1] == '}'
            },
{
    lemma_brace_scan(text);
    let spans = brace_scan(text).1;
    assert forall|k: int| 0 <= k < json_fragments(text).len() implies {
        let f = #[trigger] json_fragments(text)[k];
        f.len() >= 2 && f[0] == '{' && f[f.len() - 1] == '}'
    } by {
        let sp = spans.reverse()[k];
        assert(sp == spans[spans.len() - 1 - k]);
    }
}

/// The answer parsed from a candidate has content.
pub open spec fn usable(c: Option<Answer>) -> bool {
    c matches Some(a) && (a.letters@.len() > 0 || a.word@.len() > 0)
}

/// Of the candidates (each parsed as an answer, or not), the index of the
/// first one that parsed and has content; `None` when there is none.
pub fn first_with_content(cands: &Vec<Option<Answer>>) -> (r: Option<usize>)
    ensures
        match r {
            Some(i) => i < cands@.len() && usable(cands@[i as int]) && forall|j: int|
                0 <= j < i ==> !usable(#[trigger] cands@[j]),
            None => forall|j: int| 0 <= j < cands@.len() ==> !usable(#[trigger] cands@[j]),
        },
{
    let mut i: usize = 0;
    while i < cands.len()
        invariant
            i <= cands@.len(),
            forall|j: int| 0 <= j < i ==> !usable(#[trigger] cands@[j]),
        decreases cands@.len() - i,
    {
        match &cands[i] {
            Some(a) => {
                if a.has_content() {
                    return Some(i);
                }
            },
            None => {},
        }
        i += 1;
    }
    None
}

/// The candidate answers inside `text`: every balanced `{...}` span, newest
/// first. The answer is the first one that parses as an answer with content
/// (see [`first_with_content`]).
pub fn json_candidates(text: &str) -> (frags: Vec<String>)
    ensures
        texts(frags@) == json_fragments(text@),
{
    let chars = chars_of(text);
    let n = chars.len();
    let mut stack: Vec<usize> = Vec::new();
    let mut spans: Vec<(usize, usize)> = Vec::new();
    let mut i: usize = 0;
    proof {
        assert(chars@.take(0) =~= Seq::<char>::empty());
    }
    while i < n
        invariant
            n == chars@.len(),
            chars@ == text@,
            i <= n,
            stack@.map_values(|x: usize| x as int) == brace_scan(chars@.take(i as int)).0,
            spans@.map_values(|x: (usize, usize)| (x.0 as int, x.1 as int)) == brace_scan(
                chars@.take(i as int),
            ).1,
            forall|k: int| 0 <= k < stack@.len() ==> stack@[k] < i,
        decreases n - i,
    {
        let c = chars[i];
        let ghost st = stack@.map_values(|x: usize| x as int);
        let ghost sp = spans@.map_values(|x: (usize, usize)| (x.0 as int, x.1 as int));
        proof {
            assert(chars@.take(i + 1).drop_last() =~= chars@.take(i as int));
            assert(chars@.take(i + 1).last() == c);
        }
        if c == '{' {
            stack.push(i);
            assert(stack@.map_values(|x: usize| x as int) =~= st.push(i as int));
        } else if c == '}' && stack.len() > 0 {
            let start = stack.pop().unwrap();
            spans.push((start, i));
            assert(stack@.map_values(|x: usize| x as int) =~= st.drop_last());
            assert(spans@.map_values(|x: (usize, usize)| (x.0 as int, x.1 as int)) =~= sp.push(
                (start as int, i as int),
            ));
        }
        i += 1;
    }
    assert(chars@.take(n as int) =~= chars@);
    proof {
        lemma_brace_scan(chars@);
    }
    let ghost all = brace_scan(chars@).1;
    let mut frags: Vec<String> = Vec::new();
    let m = spans.len();
    let mut j: usize = m;
    while j > 0
        invariant
            m == spans@.len(),
            j <= m,
            all == spans@.map_values(|x: (usize, usize)| (x.0 as int, x.1 as int)),
            chars@ == text@,
            forall|k: int|
                0 <= k < all.len() ==> {
                    let sp = #[trigger] all[k];
                    0 <= sp.0 < sp.1 < chars@.len()
                },
            texts(frags@) == all.reverse().take((m - j) as int).map_values(
                |sp: (int, int)| text@.subrange(sp.0, sp.1 + 1),
            ),
        decreases j,
    {
        j -= 1;
        let (s0, e0) = spans[j];
        assert(all[j as int] == (s0 as int, e0 as int));
        let mut piece: Vec<char> = Vec::new();
        let mut k: usize = s0;
        while k <= e0
            invariant
                s0 <= k <= e0 + 1,
                e0 < chars.len(),
                piece@ == chars@.subrange(s0 as int, k as int),
            decreases e0 + 1 - k,
        {
            piece.push(chars[k]);
            assert(chars@.subrange(s0 as int, k + 1) =~= chars@.subrange(s0 as int, k as int).push(
                chars@[k as int],
            ));
            k += 1;
        }
        let ghost before = texts(frags@);
        frags.push(string_of(&piece));
        proof {
            let r = all.reverse();
            assert(r[(m - 1 - j) as int] == all[j as int]);
            assert(r.take((m - j) as int) =~= r.take((m - 1 - j) as int).push(all[j as int]));
            assert(texts(frags@) =~= before.push(piece@));
            assert(r.take((m - j) as int).map_values(|sp: (int, int)| text@.subrange(sp.0, sp.1 + 1))
                =~= r.take((m - 1 - j) as int).map_values(
                |sp: (int, int)| text@.subrange(sp.0, sp.1 + 1),
            ).push(text@.subrange(s0 as int, e0 + 1)));
        }
    }
    assert(all.reverse().take(m as int) =~= all.reverse());
    frags
}

/// The score of an answer on level `level`, or the empty score when the
/// ground truth has no such level.
pub open spec fn level_score_spec(answer: Option<Answer>, gt: GroundTruth, level: u8, within: Seq<bool>) -> ScoreState {
    match level_index(gt.levels@, level) {
        Some(i) => score_spec(answer, gt, gt.levels@[i].1, within),
        None => empty_score(0),
    }
}

/// Scores an answer on level `level` of the ground truth; a level the ground
/// truth does not have gives the empty score.
pub fn score_level(answer: Option<&Answer>, gt: &GroundTruth, level: u8, within: &Vec<bool>) -> (sc: Score)
    requires
        levels_wf(gt.levels@),
        match level_index(gt.levels@, level) {
            Some(i) => answer matches Some(a) ==> frames_comparable(
                *a,
                gt.levels@[i].1,
                gt.target@.len() as int,
            ),
            None => true,
        },
    ensures
        sc@ == level_score_spec(deref_answer(answer), *gt, level, within@),
{
    match gt.level(level) {
        Ok(lt) => score(answer, gt, lt, within),
        Err(_) => Score::default(),
    }
}

/// Counted positions never outnumber the positions.
proof fn lemma_counts_bounded(ps: Seq<PositionState>)
    ensures
        count_chars(ps) <= ps.len(),
        count_spatial(ps) <= count_frames(ps) <= ps.len() || exists|k: int|
            0 <= k < ps.len() && ps[k].spatial_ok && !ps[k].frame_ok,
    decreases ps.len(),
{
    if ps.len() > 0 {
        lemma_counts_bounded(ps.drop_last());
        if exists|k: int| 0 <= k < ps.drop_last().len() && ps.drop_last()[k].spatial_ok && !ps.drop_last()[k].frame_ok {
            let k = choose|k: int| 0 <= k < ps.drop_last().len() && ps.drop_last()[k].spatial_ok && !ps.drop_last()[k].frame_ok;
            assert(ps[k] == ps.drop_last()[k]);
        }
        if ps.last().spatial_ok && !ps.last().frame_ok {
            assert(ps[ps.len() - 1] == ps.last());
        }
    }
}

/// No position is without a first error exactly when all are right.
proof fn lemma_first_error(ps: Seq<PositionState>)
    ensures
        (first_error(ps) is None) == (count_chars(ps) == ps.len()),
        first_error(ps) is None ==> forall|k: int| 0 <= k < ps.len() ==> (#[trigger] ps[k]).char_ok,
        first_error(ps) matches Some(e) ==> 0 <= e < ps.len() && !ps[e].char_ok && forall|k: int|
            0 <= k < e ==> (#[trigger] ps[k]).char_ok,
    decreases ps.len(),
{
    if ps.len() > 0 {
        let p = ps.drop_last();
        lemma_first_error(p);
        lemma_counts_bounded(p);
        assert forall|k: int| 0 <= k < p.len() implies ps[k] == p[k] by {}
    }
}

/// Spatial credit needs the right frame: every position located correctly is
/// also on the right frame, so there are never more spatial hits than frame
/// hits, nor more frame hits than positions. There is one position per
/// character of the hidden word, and no more right characters than that.
pub proof fn law_spatial_needs_frame(answer: Answer, gt: GroundTruth, lvl: LevelTruth, within: Seq<bool>)
    requires
        gt.target@.len() <= usize::MAX,
    ensures
        ({
            let sc = score_spec(Some(answer), gt, lvl, within);
            &&& sc.positions.len() == gt.target@.len()
            &&& forall|k: int| 0 <= k < sc.positions.len() ==> (#[trigger] sc.positions[k]).spatial_ok
                ==> sc.positions[k].frame_ok
            &&& sc.spatial_correct <= sc.frames_correct <= sc.positions.len()
            &&& sc.chars_correct <= sc.positions.len()
        }),
{
    let ps = positions_of(answer, lvl, within, gt.target@);
    lemma_counts_bounded(ps);
}

/// The first error is the first position whose character is wrong, and
/// there is none exactly when every character is right.
pub proof fn law_first_error(answer: Answer, gt: GroundTruth, lvl: LevelTruth, within: Seq<bool>)
    requires
        gt.target@.len() <= usize::MAX,
    ensures
        ({
            let sc = score_spec(Some(answer), gt, lvl, within);
            &&& (sc.first_error_index is None) == (sc.chars_correct == sc.positions.len())
            &&& sc.first_error_index matches Some(e) ==> e < sc.positions.len() && !sc.positions[e as int].char_ok
                && forall|k: int| 0 <= k < e ==> (#[trigger] sc.positions[k]).char_ok
        }),
{
    let ps = positions_of(answer, lvl, within, gt.target@);
    lemma_first_error(ps);
    lemma_counts_bounded(ps);
}

/// A text is at distance zero from itself, and only from itself.
pub proof fn lemma_edit_distance_zero(a: Seq<char>, b: Seq<char>)
    ensures
        (edit_distance(a, b) == 0) == (a == b),
    decreases a.len() + b.len(),
{
    if a.len() > 0 && b.len() > 0 {
        lemma_edit_distance_zero(a.drop_last(), b.drop_last());
        if a == b {
            assert(a.drop_last() == b.drop_last());
        }
        if edit_distance(a, b) == 0 {
            assert(a =~= a.drop_last().push(a.last()));
            assert(b =~= b.drop_last().push(b.last()));
        }
    } else if a.len() == 0 && b.len() == 0 {
        assert(a =~= b);
    }
}

/// A parsed answer reads the word exactly when its Levenshtein distance to
/// the word is zero.
pub proof fn law_exact_iff_distance_zero(answer: Answer, gt: GroundTruth, lvl: LevelTruth, within: Seq<bool>)
    requires
        gt.target@.len() <= usize::MAX,
        chosen_word(answer, gt.target@).len() <= usize::MAX,
    ensures
        ({
            let sc = score_spec(Some(answer), gt, lvl, within);
            sc.word_exact == (sc.levenshtein_distance == 0)
        }),
{
    let w = chosen_word(answer, gt.target@);
    lemma_edit_distance_zero(w, gt.target@);
    lemma_edit_distance_bound(w, gt.target@);
}

/// The distance between two texts is at most the length of the longer one.
pub proof fn lemma_edit_distance_bound(a: Seq<char>, b: Seq<char>)
    ensures
        edit_distance(a, b) <= a.len() || edit_distance(a, b) <= b.len(),
        edit_distance(a, b) <= a.len() + b.len(),
    decreases a.len() + b.len(),
{
    if a.len() > 0 && b.len() > 0 {
        lemma_edit_distance_bound(a.drop_last(), b.drop_last());
        lemma_edit_distance_bound(a.drop_last(), b);
        lemma_edit_distance_bound(a, b.drop_last());
    }
}

/// The normalised form of any text is made of `a` to `z` only.
pub proof fn law_normalized_is_lowercase(s: Seq<char>)
    ensures
        forall|i: int| 0 <= i < normalized(s).len() ==> crate::text::is_ascii_lower(#[trigger] normalized(s)[i]),
{
    crate::text::lemma_ascii_lower_only_is_lower(lowercase(s));
}

/// A position's frame is right exactly when the letter reported there gave
/// a frame, the level has a target glyph at that position, and the two
/// frames are at most `FRAME_TOLERANCE` apart; the recorded delta is their
/// distance.
pub proof fn law_frame_tolerance(answer: Answer, gt: GroundTruth, lvl: LevelTruth, within: Seq<bool>, i: int)
    requires
        0 <= i < gt.target@.len(),
        frames_comparable(answer, lvl, gt.target@.len() as int),
    ensures
        ({
            let p = score_spec(Some(answer), gt, lvl, within).positions[i];
            p.frame_ok == (i < answer.letters@.len() && match (find_target(lvl.targets@, i), answer.letters@[i].frame) {
                (Some(k), Some(f)) => frame_distance(f, lvl.targets@[k].frame) <= FRAME_TOLERANCE
                    && p.frame_delta == Some(frame_distance(f, lvl.targets@[k].frame) as i64),
                _ => false,
            })
        }),
{
    if i < answer.letters@.len() {
        assert(answer.letters@[i].frame == answer.letters@[i].frame);
    }
}

proof fn lemma_count_chars_filter(ps: Seq<PositionState>)
    ensures
        count_chars(ps) == ps.filter(|p: PositionState| p.char_ok).len(),
    decreases ps.len(),
{
    let pred = |p: PositionState| p.char_ok;
    if ps.len() == 0 {
        reveal(Seq::filter);
    } else {
        lemma_count_chars_filter(ps.drop_last());
        assert(ps =~= ps.drop_last().push(ps.last()));
        ps.drop_last().lemma_filter_push(ps.last(), pred);
    }
}

proof fn lemma_count_frames_filter(ps: Seq<PositionState>)
    ensures
        count_frames(ps) == ps.filter(|p: PositionState| p.frame_ok).len(),
    decreases ps.len(),
{
    let pred = |p: PositionState| p.frame_ok;
    if ps.len() == 0 {
        reveal(Seq::filter);
    } else {
        lemma_count_frames_filter(ps.drop_last());
        assert(ps =~= ps.drop_last().push(ps.last()));
        ps.drop_last().lemma_filter_push(ps.last(), pred);
    }
}

proof fn lemma_count_spatial_filter(ps: Seq<PositionState>)
    ensures
        count_spatial(ps) == ps.filter(|p: PositionState| p.spatial_ok).len(),
    decreases ps.len(),
{
    let pred = |p: PositionState| p.spatial_ok;
    if ps.len() == 0 {
        reveal(Seq::filter);
    } else {
        lemma_count_spatial_filter(ps.drop_last());
        assert(ps =~= ps.drop_last().push(ps.last()));
        ps.drop_last().lemma_filter_push(ps.last(), pred);
    }
}

/// A parsed answer is scored position by position, one position per
/// character of the hidden word. Position `i` expects the word's `i`th
/// character and compares it with the first character of the `i`th reported
/// letter, normalised. Its frame is compared with that of the first target
/// glyph placed at position `i`: the recorded delta is the distance between
/// the two frames, and the frame is right when they are at most 2 apart.
/// Without a reported frame, or without a glyph at that position, there is
/// no delta and no frame credit; spatial credit needs the frame credit and
/// the position's spatial verdict.
pub proof fn law_position_credit(answer: Answer, gt: GroundTruth, lvl: LevelTruth, within: Seq<bool>, i: int)
    requires
        0 <= i < gt.target@.len(),
        gt.target@.len() <= usize::MAX,
        frames_comparable(answer, lvl, gt.target@.len() as int),
    ensures
        ({
            let sc = score_spec(Some(answer), gt, lvl, within);
            let p = sc.positions[i];
            let t = lvl.targets@;
            let w = gt.target@;
            &&& sc.positions.len() == w.len()
            &&& p.index == i
            &&& p.expected == seq![w[i]]
            &&& p.spatial_ok == (p.frame_ok && i < within.len() && within[i])
            &&& i >= answer.letters@.len() ==> p.got is None && !p.char_ok && !p.frame_ok
                && p.frame_delta is None
            &&& i < answer.letters@.len() ==> {
                let got = normalized(answer.letters@[i].c@);
                p.got == Some(got) && p.char_ok == (got.len() > 0 && got[0] == w[i])
            }
            &&& forall|k: int|
                0 <= k < t.len() && #[trigger] t[k].index == i && (forall|j: int| 0 <= j < k ==> t[j].index != i)
                    && i < answer.letters@.len() ==> match answer.letters@[i].frame {
                    Some(f) => {
                        let g = t[k].frame;
                        &&& (f >= g ==> p.frame_delta == Some((f - g) as i64))
                        &&& (f < g ==> p.frame_delta == Some((g - f) as i64))
                        &&& p.frame_ok == (f - g <= 2 && g - f <= 2)
                    },
                    None => p.frame_delta is None && !p.frame_ok,
                }
            &&& (forall|k: int| 0 <= k < t.len() ==> t[k].index != i) ==> p.frame_delta is None && !p.frame_ok
        }),
{
    let t = lvl.targets@;
    assert forall|k: int|
        0 <= k < t.len() && #[trigger] t[k].index == i && (forall|j: int| 0 <= j < k ==> t[j].index != i)
            implies find_target(t, i) == Some(k) by {
        lemma_find_target(t, i, k);
    }
    if i < answer.letters@.len() {
        assert(answer.letters@[i].frame == answer.letters@[i].frame);
    }
}

/// The counts of a parsed answer's score are the numbers of positions that
/// earned each credit: right characters, right frames, right places.
pub proof fn law_score_counts(answer: Answer, gt: GroundTruth, lvl: LevelTruth, within: Seq<bool>)
    requires
        gt.target@.len() <= usize::MAX,
    ensures
        ({
            let sc = score_spec(Some(answer), gt, lvl, within);
            &&& sc.parsed
            &&& sc.chars_correct == sc.positions.filter(|p: PositionState| p.char_ok).len()
            &&& sc.frames_correct == sc.positions.filter(|p: PositionState| p.frame_ok).len()
            &&& sc.spatial_correct == sc.positions.filter(|p: PositionState| p.spatial_ok).len()
        }),
{
    let ps = positions_of(answer, lvl, within, gt.target@);
    lemma_counts_bounded(ps);
    law_spatial_needs_frame(answer, gt, lvl, within);
    lemma_count_chars_filter(ps);
    lemma_count_frames_filter(ps);
    lemma_count_spatial_filter(ps);
}

/// The word of a parsed answer: its normalised letters when they spell as
/// many characters as the hidden word, else its normalised `word` when that
/// is not empty, else the letters. The answer is exact when this word is the
/// hidden word, and its distance is the edit distance between the two.
pub proof fn law_word_choice(answer: Answer, gt: GroundTruth, lvl: LevelTruth, within: Seq<bool>)
    requires
        gt.target@.len() <= usize::MAX,
    ensures
        ({
            let sc = score_spec(Some(answer), gt, lvl, within);
            let from_letters = letters_normalized(answer.letters@);
            let from_word = normalized(answer.word@);
            &&& from_letters.len() == gt.target@.len() ==> sc.word_normalized == from_letters
            &&& from_letters.len() != gt.target@.len() && from_word.len() > 0 ==> sc.word_normalized == from_word
            &&& from_letters.len() != gt.target@.len() && from_word.len() == 0 ==> sc.word_normalized == from_letters
            &&& sc.word_exact == (sc.word_normalized == gt.target@)
            &&& sc.levenshtein_distance == edit_distance(sc.word_normalized, gt.target@) as usize
            &&& sc.levenshtein_max_len == (if sc.word_normalized.len() >= gt.target@.len()
                && sc.word_normalized.len() >= 1 {
                sc.word_normalized.len()
            } else if gt.target@.len() >= 1 {
                gt.target@.len()
            } else {
                1
            }) as usize
        }),
{
}

/// The spans are listed in the order they close: their closing positions
/// strictly increase, and all lie within the text.
proof fn lemma_spans_in_order(s: Seq<char>)
    ensures
        forall|a: int, b: int|
            0 <= a < b < brace_scan(s).1.len() ==> brace_scan(s).1[a].1 < brace_scan(s).1[b].1,
        forall|a: int| 0 <= a < brace_scan(s).1.len() ==> brace_scan(s).1[a].1 < s.len(),
    decreases s.len(),
{
    lemma_brace_scan(s);
    if s.len() > 0 {
        let p = s.drop_last();
        lemma_spans_in_order(p);
        lemma_brace_scan(p);
        let (stack, spans) = brace_scan(p);
        if s.last() == '}' && stack.len() > 0 && s.last() != '{' {
            let sp2 = spans.push((stack.last(), s.len() - 1));
            assert forall|a: int, b: int| 0 <= a < b < sp2.len() implies sp2[a].1 < sp2[b].1 by {
                if b == spans.len() {
                    assert(sp2[a] == spans[a]);
                } else {
                    assert(sp2[a] == spans[a] && sp2[b] == spans[b]);
                }
            }
        }
    }
}

/// `f` is the part of `text` from the `{` at `a` to the `}` at `b`.
pub open spec fn span_of(text: Seq<char>, a: int, b: int, f: Seq<char>) -> bool {
    0 <= a < b < text.len() && text[a] == '{' && text[b] == '}' && f == text.subrange(a, b + 1)
}

/// `f` is a part of `text` from one of its `{` to a later `}`.
pub open spec fn braced_part(text: Seq<char>, f: Seq<char>) -> bool {
    exists|a: int, b: int| #[trigger] span_of(text, a, b, f)
}

/// The candidate answers of a text: each runs from a `{` of the text to a
/// later `}` and is the text between them, and the candidates come newest
/// first, by the position of their closing brace.
pub proof fn law_json_fragments(text: Seq<char>)
    ensures
        json_fragments(text).len() == brace_scan(text).1.len(),
        forall|k: int| 0 <= k < json_fragments(text).len() ==> braced_part(text, #[trigger] json_fragments(text)[k]),
        forall|k: int, j: int|
            0 <= k < j < json_fragments(text).len() ==> brace_scan(text).1.reverse()[k].1 > brace_scan(
                text,
            ).1.reverse()[j].1,
{
    lemma_brace_scan(text);
    lemma_spans_in_order(text);
    let spans = brace_scan(text).1;
    let r = spans.reverse();
    assert forall|k: int| 0 <= k < json_fragments(text).len() implies braced_part(text, #[trigger] json_fragments(text)[k]) by {
        let sp = r[k];
        assert(sp == spans[spans.len() - 1 - k]);
        assert(json_fragments(text)[k] == text.subrange(sp.0, sp.1 + 1));
        assert(span_of(text, sp.0, sp.1, json_fragments(text)[k]));
    }
    assert forall|k: int, j: int| 0 <= k < j < json_fragments(text).len() implies r[k].1 > r[j].1 by {
        assert(r[k] == spans[spans.len() - 1 - k]);
        assert(r[j] == spans[spans.len() - 1 - j]);
    }
}

} // verus!

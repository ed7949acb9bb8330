//! Ground truth emitted by the generator: which glyph sits where, on which
//! frame, for each level.

use vstd::prelude::*;
use crate::text::{decimal, push_decimal, same_chars, chars_of};

verus! {

/// One glyph of the hidden word as the generator placed it.
#[derive(Debug, Clone)]
pub struct TargetGlyph {
    /// Position of the glyph in the word.
    pub index: usize,
    pub char: String,
    /// Typeface the glyph was drawn in.
    pub font: String,
    pub frame: i64,
    /// Top-left corner and size, in pixels.
    pub x: i64,
    pub y: i64,
    pub w: i64,
    pub h: i64,
}

/// The ground truth of one level.
#[derive(Debug, Clone)]
pub struct LevelTruth {
    pub video: String,
    pub description: String,
    pub targets: Vec<TargetGlyph>,
}

/// The ground truth of the whole benchmark. Levels are keyed by the decimal
/// numeral of the level, as the generator writes them.
#[derive(Debug, Clone)]
pub struct GroundTruth {
    pub target: String,
    pub seed: u64,
    pub frames: i64,
    pub levels: Vec<(String, LevelTruth)>,
}

/// No level key occurs twice, as in the JSON object the truth is read from.
pub open spec fn levels_wf(levels: Seq<(String, LevelTruth)>) -> bool {
    forall|i: int, j: int| 0 <= i < j < levels.len() ==> levels[i].0@ != levels[j].0@
}

/// The index of the first level whose key is the numeral of `lvl` (with
/// distinct keys, the only one).
pub open spec fn level_index(levels: Seq<(String, LevelTruth)>, lvl: u8) -> Option<int> {
    if exists|i: int| 0 <= i < levels.len() && levels[i].0@ == decimal(lvl as nat) {
        Some(
            choose|i: int|
                0 <= i < levels.len() && levels[i].0@ == decimal(lvl as nat) && forall|j: int|
                    0 <= j < i ==> levels[j].0@ != decimal(lvl as nat),
        )
    } else {
        None
    }
}

/// The first level of the list with the key of `lvl` is the one at `k`.
pub proof fn lemma_level_index(levels: Seq<(String, LevelTruth)>, lvl: u8, k: int)
    requires
        0 <= k < levels.len(),
        levels[k].0@ == decimal(lvl as nat),
        forall|j: int| 0 <= j < k ==> levels[j].0@ != decimal(lvl as nat),
    ensures
        level_index(levels, lvl) == Some(k),
{
    let key = decimal(lvl as nat);
    let c = choose|i: int|
        0 <= i < levels.len() && levels[i].0@ == key && forall|j: int| 0 <= j < i ==> levels[j].0@ != key;
    assert(0 <= c < levels.len() && levels[c].0@ == key && forall|j: int| 0 <= j < c ==> levels[j].0@ != key);
    if c < k {
        assert(levels[c].0@ != key);
    }
    if k < c {
        assert(levels[k].0@ != key);
    }
}

/// Why a level could not be found.
#[derive(Debug, Clone, Copy, PartialEq, Eq, Structural)]
pub enum TruthError {
    /// The ground truth has no entry for this level.
    NoLevel(u8),
}

/// The index of the first glyph whose position in the word is `i`.
pub open spec fn find_target(targets: Seq<TargetGlyph>, i: int) -> Option<int> {
    if exists|k: int| 0 <= k < targets.len() && targets[k].index == i {
        Some(
            choose|k: int|
                0 <= k < targets.len() && targets[k].index == i && forall|j: int|
                    0 <= j < k ==> targets[j].index != i,
        )
    } else {
        None
    }
}

/// The first glyph of the list whose position is `i` is the one at `k`.
pub proof fn lemma_find_target(targets: Seq<TargetGlyph>, i: int, k: int)
    requires
        0 <= k < targets.len(),
        targets[k].index == i,
        forall|j: int| 0 <= j < k ==> targets[j].index != i,
    ensures
        find_target(targets, i) == Some(k),
{
    let c = choose|k2: int|
        0 <= k2 < targets.len() && targets[k2].index == i && forall|j: int|
            0 <= j < k2 ==> targets[j].index != i;
    assert(0 <= c < targets.len() && targets[c].index == i && forall|j: int|
        0 <= j < c ==> targets[j].index != i);
    if c < k {
        assert(targets[c].index != i);
    }
    if k < c {
        assert(targets[k].index != i);
    }
}

impl LevelTruth {
    /// The target glyph at position `i` of the word, if the level has one
    /// (the first such glyph when several claim it).
    pub fn target_for(&self, i: usize) -> (r: Option<&TargetGlyph>)
        ensures
            match find_target(self.targets@, i as int) {
                Some(k) => r == Some(&self.targets@[k]),
                None => r is None,
            },
    {
        let n = self.targets.len();
        let mut k: usize = 0;
        while k < n
            invariant
                n == self.targets@.len(),
                k <= n,
                forall|j: int| 0 <= j < k ==> self.targets@[j].index != i,
            decreases n - k,
        {
            if self.targets[k].index == i {
                proof {
                    lemma_find_target(self.targets@, i as int, k as int);
                }
                return Some(&self.targets[k]);
            }
            k += 1;
        }
        None
    }
}

impl GroundTruth {
    /// The truth of level `lvl`: the entry whose key is its numeral.
    pub fn level(&self, lvl: u8) -> (r: Result<&LevelTruth, TruthError>)
        requires
            levels_wf(self.levels@),
        ensures
            r is Ok <==> exists|i: int| 0 <= i < self.levels@.len() && self.levels@[i].0@ == decimal(lvl as nat),
            forall|i: int| 0 <= i < self.levels@.len() && self.levels@[i].0@ == decimal(lvl as nat) ==> r == Ok::<&LevelTruth, TruthError>(&self.levels@[i].1),
            match level_index(self.levels@, lvl) {
                Some(i) => r == Ok::<&LevelTruth, TruthError>(&self.levels@[i].1),
                None => r == Err::<&LevelTruth, TruthError>(TruthError::NoLevel(lvl)),
            },
    {
        let mut key: Vec<char> = Vec::new();
        push_decimal(&mut key, lvl as u64);
        assert(key@ =~= decimal(lvl as nat));
        let n = self.levels.len();
        let mut i: usize = 0;
        while i < n
            invariant
                n == self.levels@.len(),
                i <= n,
                levels_wf(self.levels@),
                key@ == decimal(lvl as nat),
                forall|j: int| 0 <= j < i ==> self.levels@[j].0@ != decimal(lvl as nat),
            decreases n - i,
        {
            let k = chars_of(self.levels[i].0.as_str());
            if same_chars(&k, &key) {
                proof {
                    lemma_level_index(self.levels@, lvl, i as int);
                    assert forall|i2: int|
                        0 <= i2 < self.levels@.len() && self.levels@[i2].0@ == decimal(
                            lvl as nat,
                        ) implies i2 == i by {
                        if i2 > i {
                            assert(self.levels@[i as int].0@ != self.levels@[i2].0@);
                        }
                    }
                }
                return Ok(&self.levels[i].1);
            }
            i += 1;
        }
        Err(TruthError::NoLevel(lvl))
    }
}

} // verus!

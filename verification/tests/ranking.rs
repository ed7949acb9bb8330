use glyphhunt::rank::{frac_sign, key_order, rank, RankKey};
use glyphhunt::report::{hardest_order, leaderboard_order, Agg, FontTally};
use glyphhunt::tui::{board_order, Tally};

fn agg(runs: usize, exact: usize, chars: u128) -> Agg {
    Agg {
        runs,
        exact,
        chars,
        frames: 0,
        spatial: 0,
        wall: 0,
        out_tok: 0,
        shell: 0,
        ffmpeg: 0,
        imgs: 0,
        diffs: 0,
        fails: 0,
        walls: 0,
    }
}

fn tally(runs: usize, exact: usize, chars: u128) -> Tally {
    Tally { runs, exact, chars, frames: 0, spatial: 0, wall_ms: 0, best_chars: 0, failures: 0 }
}

fn key(a: u128, b: u128, c: u128, d: u128) -> RankKey {
    RankKey { major: (a, b), minor: (c, d) }
}

#[test]
fn fractions_compare_exactly() {
    assert_eq!(frac_sign(1, 2, 2, 4), 0);
    assert_eq!(frac_sign(1, 3, 1, 2), -1);
    assert_eq!(frac_sign(2, 3, 1, 2), 1);
    assert_eq!(frac_sign(0, 5, 0, 1), 0);
    assert_eq!(frac_sign(7, 1, 20, 3), 1);
    assert_eq!(frac_sign(13, 5, 8, 3), -1);
}

#[test]
fn fractions_compare_where_products_would_overflow() {
    let m = u128::MAX;
    // x / (x - 1) shrinks as x grows.
    assert_eq!(frac_sign(m, m - 1, m - 1, m - 2), -1);
    assert_eq!(frac_sign(m - 1, m - 2, m, m - 1), 1);
    assert_eq!(frac_sign(m, m, 1, 1), 0);
    assert_eq!(frac_sign(m - 1, m, m - 2, m - 1), 1);
}

#[test]
fn keys_compare_major_then_minor() {
    assert_eq!(key_order(&key(1, 2, 0, 1), &key(1, 3, 9, 1)), 1);
    assert_eq!(key_order(&key(1, 2, 3, 1), &key(2, 4, 5, 1)), -1);
    assert_eq!(key_order(&key(1, 2, 3, 2), &key(2, 4, 6, 4)), 0);
}

#[test]
fn ranking_is_stable_on_ties() {
    let keys = vec![key(1, 2, 1, 1), key(3, 4, 0, 1), key(2, 4, 1, 1), key(0, 1, 0, 1), key(3, 4, 0, 1)];
    assert_eq!(rank(&keys, true), vec![1, 4, 0, 2, 3]);
    assert_eq!(rank(&keys, false), vec![3, 0, 2, 1, 4]);
    assert_eq!(rank(&vec![], true), Vec::<usize>::new());
}

#[test]
fn leaderboard_puts_solve_rate_first_then_mean_chars() {
    let groups = vec![
        agg(4, 1, 40), // 25% solved, 10 chars
        agg(2, 1, 10), // 50% solved, 5 chars
        agg(3, 0, 51), // 0% solved, 17 chars
        agg(6, 3, 48), // 50% solved, 8 chars
        agg(0, 0, 0),  // no runs
    ];
    assert_eq!(leaderboard_order(&groups), vec![3, 1, 0, 2, 4]);
}

#[test]
fn live_board_counts_exact_solves_not_rates() {
    let ts = vec![tally(10, 2, 100), tally(2, 1, 30), tally(3, 2, 33)];
    // Two exact solves tie; 11 chars a run beats 10, and one solve at 15 comes last.
    assert_eq!(board_order(&ts), vec![2, 0, 1]);
}

#[test]
fn hardest_typefaces_first_ties_in_table_order() {
    let t = |index: usize, ok: usize, total: usize| FontTally { index, font: format!("F{index}"), ok, total };
    let ts = vec![t(0, 3, 4), t(1, 0, 2), t(2, 1, 2), t(3, 2, 4), t(4, 0, 5)];
    assert_eq!(hardest_order(&ts), vec![1, 4, 2, 3, 0]);
}

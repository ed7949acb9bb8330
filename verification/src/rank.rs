//! Leaderboard order: rows ranked by success rates, compared exactly as
//! fractions of counts, ties kept in the order the rows came in.

use vstd::prelude::*;

verus! {

/// The sign of `x`: -1, 0 or 1.
pub open spec fn sign(x: int) -> int {
    if x < 0 {
        -1
    } else if x == 0 {
        0
    } else {
        1
    }
}

/// The sign of `a/b - c/d`, for positive `b` and `d`.
pub open spec fn frac_sign_spec(a: int, b: int, c: int, d: int) -> int {
    sign(a * d - c * b)
}

proof fn lemma_quotients_differ(a: int, b: int, c: int, d: int, q1: int, r1: int, q2: int, r2: int)
    by (nonlinear_arith)
    requires
        b > 0,
        d > 0,
        a == q1 * b + r1,
        0 <= r1 < b,
        c == q2 * d + r2,
        0 <= r2 < d,
        q1 < q2,
    ensures
        a * d < c * b,
{
    assert(a < (q1 + 1) * b);
    assert(a * d < (q1 + 1) * b * d);
    assert((q1 + 1) * b * d <= q2 * d * b);
    assert(q2 * d * b <= c * b);
}

proof fn lemma_equal_quotients(a: int, b: int, c: int, d: int, q: int, r1: int, r2: int)
    by (nonlinear_arith)
    requires
        a == q * b + r1,
        c == q * d + r2,
    ensures
        a * d - c * b == r1 * d - r2 * b,
{
}

/// Compares `a/b` with `c/d` exactly: -1 when it is smaller, 0 when equal,
/// 1 when larger. No product is formed, so nothing can overflow.
pub fn frac_sign(a: u128, b: u128, c: u128, d: u128) -> (s: i8)
    requires
        b > 0,
        d > 0,
    ensures
        s == frac_sign_spec(a as int, b as int, c as int, d as int),
    decreases b + d,
{
    let q1 = a / b;
    let r1 = a % b;
    let q2 = c / d;
    let r2 = c % d;
    proof {
        assert(a == q1 * b + r1) by (nonlinear_arith)
            requires
                q1 == a / b,
                r1 == a % b,
                b > 0,
        ;
        assert(c == q2 * d + r2) by (nonlinear_arith)
            requires
                q2 == c / d,
                r2 == c % d,
                d > 0,
        ;
    }
    if q1 < q2 {
        proof {
            lemma_quotients_differ(a as int, b as int, c as int, d as int, q1 as int, r1 as int, q2 as int, r2 as int);
        }
        -1
    } else if q2 < q1 {
        proof {
            lemma_quotients_differ(c as int, d as int, a as int, b as int, q2 as int, r2 as int, q1 as int, r1 as int);
        }
        1
    } else {
        proof {
            lemma_equal_quotients(a as int, b as int, c as int, d as int, q1 as int, r1 as int, r2 as int);
        }
        if r1 == 0 && r2 == 0 {
            assert(r1 * d == 0 && r2 * b == 0) by (nonlinear_arith)
                requires
                    r1 == 0,
                    r2 == 0,
            ;
            0
        } else if r1 == 0 {
            proof {
                assert(r2 * b > 0 && r1 * d == 0) by (nonlinear_arith)
                    requires
                        r2 > 0,
                        b > 0,
                        r1 == 0,
                ;
            }
            -1
        } else if r2 == 0 {
            proof {
                assert(r1 * d > 0 && r2 * b == 0) by (nonlinear_arith)
                    requires
                        r1 > 0,
                        d > 0,
                        r2 == 0,
                ;
            }
            1
        } else {
            // r1/b against r2/d is d/r2 against b/r1, with smaller denominators.
            let s = frac_sign(d, r2, b, r1);
            proof {
                assert(d * r1 - b * r2 == r1 * d - r2 * b) by (nonlinear_arith);
            }
            s
        }
    }
}

proof fn lemma_frac_trans(a: int, b: int, c: int, d: int, e: int, f: int)
    by (nonlinear_arith)
    requires
        b > 0,
        d > 0,
        f > 0,
        a * d >= c * b,
        c * f >= e * d,
    ensures
        a * f >= e * b,
        (a * d > c * b || c * f > e * d) ==> a * f > e * b,
{
    assert((a * d - c * b) * f >= 0);
    assert((c * f - e * d) * b >= 0);
    assert(d * (a * f - e * b) == (a * d - c * b) * f + (c * f - e * d) * b);
}

/// What a row is ranked by: a first fraction of counts, and a second one
/// that breaks its ties. Each is a numerator and a positive denominator.
#[derive(Debug, Clone, Copy)]
pub struct RankKey {
    pub major: (u128, u128),
    pub minor: (u128, u128),
}

/// Both denominators are positive.
pub open spec fn key_wf(k: RankKey) -> bool {
    k.major.1 > 0 && k.minor.1 > 0
}

/// The sign of `x - y` in the order of keys: first fractions first, second
/// fractions on a tie.
pub open spec fn key_sign(x: RankKey, y: RankKey) -> int {
    let m = frac_sign_spec(x.major.0 as int, x.major.1 as int, y.major.0 as int, y.major.1 as int);
    if m != 0 {
        m
    } else {
        frac_sign_spec(x.minor.0 as int, x.minor.1 as int, y.minor.0 as int, y.minor.1 as int)
    }
}

/// Positive when `x` goes before `y` in a ranking that puts the larger keys
/// first (`desc`) or the smaller ones first; zero when they tie.
pub open spec fn preference(desc: bool, x: RankKey, y: RankKey) -> int {
    if desc {
        key_sign(x, y)
    } else {
        key_sign(y, x)
    }
}

/// Swapping the two keys flips the sign.
pub proof fn lemma_preference_antisymmetric(desc: bool, x: RankKey, y: RankKey)
    ensures
        preference(desc, x, y) == -preference(desc, y, x),
{
}

proof fn lemma_key_trans(x: RankKey, y: RankKey, z: RankKey)
    requires
        key_wf(x),
        key_wf(y),
        key_wf(z),
        key_sign(x, y) >= 0,
        key_sign(y, z) >= 0,
    ensures
        key_sign(x, z) >= 0,
        (key_sign(x, y) > 0 || key_sign(y, z) > 0) ==> key_sign(x, z) > 0,
{
    let (a, b) = (x.major.0 as int, x.major.1 as int);
    let (c, d) = (y.major.0 as int, y.major.1 as int);
    let (e, f) = (z.major.0 as int, z.major.1 as int);
    lemma_frac_trans(a, b, c, d, e, f);
    let (a2, b2) = (x.minor.0 as int, x.minor.1 as int);
    let (c2, d2) = (y.minor.0 as int, y.minor.1 as int);
    let (e2, f2) = (z.minor.0 as int, z.minor.1 as int);
    if a * d == c * b && c * f == e * d {
        lemma_frac_trans(a2, b2, c2, d2, e2, f2);
    }
}

/// Preferences chain: a key not behind a second one, which is not behind a
/// third, is not behind the third either, and strictly ahead of it when
/// either step was strict.
pub proof fn lemma_preference_transitive(desc: bool, x: RankKey, y: RankKey, z: RankKey)
    requires
        key_wf(x),
        key_wf(y),
        key_wf(z),
        preference(desc, x, y) >= 0,
        preference(desc, y, z) >= 0,
    ensures
        preference(desc, x, z) >= 0,
        (preference(desc, x, y) > 0 || preference(desc, y, z) > 0) ==> preference(desc, x, z) > 0,
{
    if desc {
        lemma_key_trans(x, y, z);
    } else {
        lemma_key_trans(z, y, x);
    }
}

/// Compares two keys: the sign of `x - y`.
pub fn key_order(x: &RankKey, y: &RankKey) -> (s: i8)
    requires
        key_wf(*x),
        key_wf(*y),
    ensures
        s == key_sign(*x, *y),
{
    let m = frac_sign(x.major.0, x.major.1, y.major.0, y.major.1);
    if m != 0 {
        m
    } else {
        frac_sign(x.minor.0, x.minor.1, y.minor.0, y.minor.1)
    }
}

/// `p` ranks `keys`: it lists every index of `keys` once, each key goes no
/// later than any key it is preferred to, and tied keys keep their order.
pub open spec fn ranks(keys: Seq<RankKey>, desc: bool, p: Seq<usize>) -> bool {
    &&& p.len() == keys.len()
    &&& forall|i: int| 0 <= i < p.len() ==> p[i] < keys.len()
    &&& forall|i: int, j: int| 0 <= i < j < p.len() ==> p[i] != p[j]
    &&& forall|i: int, j: int|
        0 <= i < j < p.len() ==> preference(desc, keys[p[i] as int], keys[p[j] as int]) >= 0
    &&& forall|i: int, j: int|
        0 <= i < j < p.len() && preference(desc, keys[p[i] as int], keys[p[j] as int]) == 0 ==> p[i] < p[j]
}

/// The ranking of `keys` (larger keys first when `desc`, smaller first
/// otherwise), as the list of their indices; a stable insertion sort.
pub fn rank(keys: &Vec<RankKey>, desc: bool) -> (p: Vec<usize>)
    requires
        forall|i: int| 0 <= i < keys@.len() ==> key_wf(#[trigger] keys@[i]),
    ensures
        ranks(keys@, desc, p@),
{
    let n = keys.len();
    let mut res: Vec<usize> = Vec::new();
    let mut i: usize = 0;
    while i < n
        invariant
            n == keys@.len(),
            i <= n,
            forall|k: int| 0 <= k < keys@.len() ==> key_wf(#[trigger] keys@[k]),
            res@.len() == i,
            forall|a: int| 0 <= a < res@.len() ==> res@[a] < i,
            forall|a: int, b: int| 0 <= a < b < res@.len() ==> res@[a] != res@[b],
            forall|a: int, b: int|
                0 <= a < b < res@.len() ==> preference(desc, keys@[res@[a] as int], keys@[res@[b] as int]) >= 0,
            forall|a: int, b: int|
                0 <= a < b < res@.len() && preference(desc, keys@[res@[a] as int], keys@[res@[b] as int]) == 0
                    ==> res@[a] < res@[b],
        decreases n - i,
    {
        let ki = &keys[i];
        let mut pos: usize = 0;
        while pos < res.len()
            invariant
                n == keys@.len(),
                i < n,
                *ki == keys@[i as int],
                forall|k: int| 0 <= k < keys@.len() ==> key_wf(#[trigger] keys@[k]),
                forall|a: int| 0 <= a < res@.len() ==> res@[a] < i,
                pos <= res@.len(),
                forall|a: int| 0 <= a < pos ==> preference(desc, *ki, keys@[res@[a] as int]) <= 0,
            ensures
                pos <= res@.len(),
                forall|a: int| 0 <= a < pos ==> preference(desc, *ki, keys@[res@[a] as int]) <= 0,
                pos < res@.len() ==> preference(desc, *ki, keys@[res@[pos as int] as int]) > 0,
            decreases res@.len() - pos,
        {
            let kr = &keys[res[pos]];
            let s = key_order(ki, kr);
            let ahead = if desc { s > 0 } else { s < 0 };
            if ahead {
                break;
            }
            pos += 1;
        }
        let ghost old_res = res@;
        res.insert(pos, i);
        proof {
            assert forall|a: int, b: int| 0 <= a < b < res@.len() implies preference(
                desc,
                keys@[res@[a] as int],
                keys@[res@[b] as int],
            ) >= 0 && (preference(desc, keys@[res@[a] as int], keys@[res@[b] as int]) == 0 ==> res@[a]
                < res@[b]) by {
                let p = pos as int;
                if b < p {
                    assert(res@[a] == old_res[a] && res@[b] == old_res[b]);
                } else if b == p {
                    assert(res@[a] == old_res[a]);
                    lemma_preference_antisymmetric(desc, keys@[i as int], keys@[old_res[a] as int]);
                } else if a == p {
                    assert(res@[b] == old_res[b - 1]);
                    if b - 1 > p {
                        lemma_preference_transitive(
                            desc,
                            keys@[i as int],
                            keys@[old_res[p] as int],
                            keys@[old_res[b - 1] as int],
                        );
                    }
                } else if a < p {
                    assert(res@[a] == old_res[a] && res@[b] == old_res[b - 1]);
                } else {
                    assert(res@[a] == old_res[a - 1] && res@[b] == old_res[b - 1]);
                }
            }
            assert forall|a: int, b: int| 0 <= a < b < res@.len() implies res@[a] != res@[b] by {
                let p = pos as int;
                if a == p {
                    assert(res@[b] == old_res[b - 1]);
                } else if b == p {
                    assert(res@[a] == old_res[a]);
                } else if b < p {
                    assert(res@[a] == old_res[a] && res@[b] == old_res[b]);
                } else if a < p {
                    assert(res@[a] == old_res[a] && res@[b] == old_res[b - 1]);
                } else {
                    assert(res@[a] == old_res[a - 1] && res@[b] == old_res[b - 1]);
                }
            }
            assert forall|a: int| 0 <= a < res@.len() implies res@[a] < i + 1 by {
                let p = pos as int;
                if a < p {
                    assert(res@[a] == old_res[a]);
                } else if a > p {
                    assert(res@[a] == old_res[a - 1]);
                }
            }
        }
        i += 1;
    }
    res
}

/// A list of `n` distinct indices below `n` holds every index below `n`.
proof fn lemma_indices_cover(p: Seq<usize>, v: int)
    requires
        forall|i: int| 0 <= i < p.len() ==> p[i] < p.len(),
        forall|i: int, j: int| 0 <= i < j < p.len() ==> p[i] != p[j],
        0 <= v < p.len(),
    ensures
        exists|i: int| 0 <= i < p.len() && p[i] == v,
{
    let n = p.len() as int;
    let s = p.map_values(|x: usize| x as int);
    assert(s.no_duplicates()) by {
        assert forall|i: int, j: int| 0 <= i < s.len() && 0 <= j < s.len() && i != j implies s[i] != s[j] by {
            if i < j {
                assert(p[i] != p[j]);
            } else {
                assert(p[j] != p[i]);
            }
        }
    }
    s.unique_seq_to_set();
    vstd::set_lib::lemma_int_range(0, n);
    assert(s.to_set().subset_of(vstd::set_lib::set_int_range(0, n))) by {
        assert forall|e: int| s.to_set().contains(e) implies vstd::set_lib::set_int_range(0, n).contains(e) by {
            assert(s.contains(e));
            let i = choose|i: int| 0 <= i < s.len() && s[i] == e;
            assert(p[i] < n);
        }
    }
    vstd::seq_lib::seq_to_set_is_finite(s);
    vstd::set_lib::lemma_subset_equality(s.to_set(), vstd::set_lib::set_int_range(0, n));
    assert(vstd::set_lib::set_int_range(0, n).contains(v));
    assert(s.to_set().contains(v));
    assert(s.contains(v));
    let i = choose|i: int| 0 <= i < s.len() && s[i] == v;
    assert(p[i] == v);
}

/// Two rankings of the same keys agree on their first `k` entries.
proof fn lemma_rankings_agree(keys: Seq<RankKey>, desc: bool, p: Seq<usize>, q: Seq<usize>, k: int)
    requires
        ranks(keys, desc, p),
        ranks(keys, desc, q),
        0 <= k <= p.len(),
    ensures
        forall|j: int| 0 <= j < k ==> p[j] == q[j],
    decreases k,
{
    if k > 0 {
        lemma_rankings_agree(keys, desc, p, q, k - 1);
        let t = k - 1;
        let x = p[t];
        let y = q[t];
        if x != y {
            lemma_indices_cover(q, x as int);
            let m = choose|m: int| 0 <= m < q.len() && q[m] == x;
            lemma_indices_cover(p, y as int);
            let m2 = choose|m: int| 0 <= m < p.len() && p[m] == y;
            if m < t {
                assert(q[m] == p[m]);
            }
            if m2 < t {
                assert(q[m2] == p[m2]);
            }
            assert(t < m && t < m2);
            lemma_preference_antisymmetric(desc, keys[x as int], keys[y as int]);
        }
    }
}

/// A ranking is determined by its keys: any two lists that rank the same
/// keys in the same direction are the same list.
pub proof fn law_ranking_unique(keys: Seq<RankKey>, desc: bool, p: Seq<usize>, q: Seq<usize>)
    requires
        ranks(keys, desc, p),
        ranks(keys, desc, q),
    ensures
        p == q,
{
    lemma_rankings_agree(keys, desc, p, q, p.len() as int);
    assert(p =~= q);
}

} // verus!

//! Lexicographic order on texts, and the sorted lists the report and the run
//! record are built from. Texts compare character by character, which is the
//! order `String` has (UTF-8 preserves the order of code points).

use vstd::prelude::*;
use crate::runner::texts;
use crate::text::chars_of;

verus! {

/// `a` comes strictly before `b` in lexicographic order.
pub open spec fn lex_lt(a: Seq<char>, b: Seq<char>) -> bool
    decreases a.len(),
{
    if a.len() == 0 {
        b.len() > 0
    } else if b.len() == 0 {
        false
    } else if a[0] != b[0] {
        a[0] < b[0]
    } else {
        lex_lt(a.drop_first(), b.drop_first())
    }
}

/// Nothing comes before itself.
pub proof fn lemma_lex_irreflexive(a: Seq<char>)
    ensures
        !lex_lt(a, a),
    decreases a.len(),
{
    if a.len() > 0 {
        lemma_lex_irreflexive(a.drop_first());
    }
}

/// Of two different texts, one comes before the other, and not both ways.
pub proof fn lemma_lex_total(a: Seq<char>, b: Seq<char>)
    ensures
        a != b ==> (lex_lt(a, b) || lex_lt(b, a)),
        !(lex_lt(a, b) && lex_lt(b, a)),
    decreases a.len(),
{
    if a.len() > 0 && b.len() > 0 && a[0] == b[0] {
        lemma_lex_total(a.drop_first(), b.drop_first());
        if a.drop_first() == b.drop_first() {
            assert(a =~= seq![a[0]] + a.drop_first());
            assert(b =~= seq![b[0]] + b.drop_first());
        }
    }
    if a.len() == 0 && b.len() == 0 {
        assert(a =~= b);
    }
}

/// The order is transitive.
pub proof fn lemma_lex_transitive(a: Seq<char>, b: Seq<char>, c: Seq<char>)
    requires
        lex_lt(a, b),
        lex_lt(b, c),
    ensures
        lex_lt(a, c),
    decreases a.len(),
{
    if a.len() > 0 && b.len() > 0 && c.len() > 0 && a[0] == b[0] && b[0] == c[0] {
        lemma_lex_transitive(a.drop_first(), b.drop_first(), c.drop_first());
    }
}

/// Whether `a` comes strictly before `b`.
pub fn chars_lt(a: &Vec<char>, b: &Vec<char>) -> (r: bool)
    ensures
        r == lex_lt(a@, b@),
{
    let mut i: usize = 0;
    assert(a@.skip(0) =~= a@);
    assert(b@.skip(0) =~= b@);
    while i < a.len() && i < b.len() && a[i] == b[i]
        invariant
            i <= a@.len(),
            i <= b@.len(),
            lex_lt(a@, b@) == lex_lt(a@.skip(i as int), b@.skip(i as int)),
        decreases a@.len() - i,
    {
        assert(a@.skip(i as int).drop_first() =~= a@.skip(i + 1));
        assert(b@.skip(i as int).drop_first() =~= b@.skip(i + 1));
        i += 1;
    }
    if i == a.len() {
        i < b.len()
    } else if i == b.len() {
        false
    } else {
        a[i] < b[i]
    }
}

/// Whether text `a` comes strictly before text `b`.
pub fn str_lt(a: &str, b: &str) -> (r: bool)
    ensures
        r == lex_lt(a@, b@),
{
    chars_lt(&chars_of(a), &chars_of(b))
}

/// Every text comes strictly before every later one.
pub open spec fn strictly_sorted(s: Seq<Seq<char>>) -> bool {
    forall|i: int, j: int| 0 <= i < j < s.len() ==> lex_lt(s[i], s[j])
}

/// No text comes strictly before an earlier one.
pub open spec fn sorted(s: Seq<Seq<char>>) -> bool {
    forall|i: int, j: int| 0 <= i < j < s.len() ==> !lex_lt(s[j], s[i])
}

/// Adds `x` to a strictly sorted list of texts, unless it is there already.
pub fn insert_distinct(v: &mut Vec<String>, x: String)
    requires
        strictly_sorted(texts(old(v)@)),
    ensures
        strictly_sorted(texts(final(v)@)),
        texts(final(v)@).to_set() == texts(old(v)@).to_set().insert(x@),
{
    let ghost s = texts(v@);
    let n = v.len();
    let mut j: usize = 0;
    while j < n && str_lt(v[j].as_str(), x.as_str())
        invariant
            n == v@.len(),
            s == texts(v@),
            j <= n,
            forall|k: int| 0 <= k < j ==> lex_lt(#[trigger] s[k], x@),
        decreases n - j,
    {
        j += 1;
    }
    if j < n && str_lt(x.as_str(), v[j].as_str()) == false {
        proof {
            lemma_lex_total(s[j as int], x@);
            assert(s[j as int] == x@);
            assert(s.to_set().insert(x@) =~= s.to_set());
        }
        return;
    }
    proof {
        assert forall|k: int| j <= k < n implies lex_lt(x@, #[trigger] s[k]) by {
            if k > j {
                lemma_lex_transitive(x@, s[j as int], s[k]);
            }
        }
    }
    v.insert(j, x);
    proof {
        let t = texts(v@);
        assert(t =~= s.insert(j as int, x@));
        assert forall|a: int, b: int| 0 <= a < b < t.len() implies lex_lt(t[a], t[b]) by {
            if b == j {
            } else if a == j {
            } else if a < j && b > j {
                lemma_lex_transitive(t[a], x@, t[b]);
            }
        }
        assert forall|y: Seq<char>| t.contains(y) implies s.contains(y) || y == x@ by {
            let k = choose|k: int| 0 <= k < t.len() && t[k] == y;
            if k < j {
                assert(s[k] == y);
            } else if k > j {
                assert(s[k - 1] == y);
            }
        }
        assert forall|y: Seq<char>| s.contains(y) implies t.contains(y) by {
            let k = choose|k: int| 0 <= k < s.len() && s[k] == y;
            if k < j {
                assert(t[k] == y);
            } else {
                assert(t[k + 1] == y);
            }
        }
        assert(t[j as int] == x@);
        assert(t.to_set() =~= s.to_set().insert(x@));
    }
}

/// Sorts texts by insertion: each text goes after every text that does not
/// come after it, so equal texts keep their order.
pub fn sort_texts(v: Vec<String>) -> (r: Vec<String>)
    ensures
        sorted(texts(r@)),
        texts(r@).to_multiset() == texts(v@).to_multiset(),
{
    let mut r: Vec<String> = Vec::new();
    let n = v.len();
    let mut i: usize = 0;
    proof {
        assert(texts(v@).take(0) =~= Seq::<Seq<char>>::empty());
        assert(texts(r@) =~= Seq::<Seq<char>>::empty());
    }
    while i < n
        invariant
            n == v@.len(),
            i <= n,
            sorted(texts(r@)),
            texts(r@).to_multiset() == texts(v@).take(i as int).to_multiset(),
        decreases n - i,
    {
        let x = v[i].clone();
        let ghost s = texts(r@);
        let m = r.len();
        let mut j: usize = 0;
        while j < m && !str_lt(x.as_str(), r[j].as_str())
            invariant
                m == r@.len(),
                s == texts(r@),
                x@ == texts(v@)[i as int],
                j <= m,
                forall|k: int| 0 <= k < j ==> !lex_lt(x@, #[trigger] s[k]),
            decreases m - j,
        {
            j += 1;
        }
        proof {
            assert forall|k: int| j <= k < m implies !lex_lt(#[trigger] s[k], x@) by {
                if k == j {
                    lemma_lex_total(x@, s[k]);
                } else {
                    lemma_lex_total(x@, s[j as int]);
                    if lex_lt(s[k], x@) {
                        lemma_lex_transitive(s[k], x@, s[j as int]);
                        lemma_lex_total(s[j as int], s[k]);
                    }
                }
            }
        }
        r.insert(j, x);
        proof {
            let t = texts(r@);
            assert(t =~= s.insert(j as int, x@));
            assert forall|a: int, b: int| 0 <= a < b < t.len() implies !lex_lt(t[b], t[a]) by {
                if a < j && b > j {
                    if lex_lt(t[b], t[a]) {
                        lemma_lex_total(x@, t[a]);
                        if lex_lt(t[a], x@) {
                            lemma_lex_transitive(t[b], t[a], x@);
                        } else {
                            assert(t[a] == x@ || lex_lt(x@, t[a]));
                        }
                    }
                }
            }
            vstd::seq_lib::to_multiset_insert(s, j as int, x@);
            assert(texts(v@).take(i + 1) =~= texts(v@).take(i as int).push(x@));
            vstd::seq_lib::to_multiset_build(texts(v@).take(i as int), x@);
        }
        i += 1;
    }
    assert(texts(v@).take(n as int) =~= texts(v@));
    r
}

/// `a` comes before `b` exactly when, after a common beginning, either `a`
/// ends while `b` goes on, or `a`'s next character is smaller than `b`'s.
pub proof fn law_lex_lt(a: Seq<char>, b: Seq<char>)
    ensures
        lex_lt(a, b) == exists|k: int|
            0 <= k <= a.len() && k <= b.len() && #[trigger] a.take(k) == b.take(k) && ((k == a.len() && k
                < b.len()) || (k < a.len() && k < b.len() && a[k] < b[k])),
    decreases a.len(),
{
    if a.len() == 0 {
        if b.len() > 0 {
            assert(a.take(0) =~= b.take(0));
        }
    } else if b.len() == 0 {
    } else if a[0] != b[0] {
        assert(a.take(0) =~= b.take(0));
        if exists|k: int|
            0 <= k <= a.len() && k <= b.len() && #[trigger] a.take(k) == b.take(k) && ((k == a.len() && k
                < b.len()) || (k < a.len() && k < b.len() && a[k] < b[k])) {
            let k = choose|k: int|
                0 <= k <= a.len() && k <= b.len() && #[trigger] a.take(k) == b.take(k) && ((k == a.len() && k
                    < b.len()) || (k < a.len() && k < b.len() && a[k] < b[k]));
            if k > 0 {
                assert(a.take(k)[0] == b.take(k)[0]);
            }
        }
    } else {
        let a1 = a.drop_first();
        let b1 = b.drop_first();
        law_lex_lt(a1, b1);
        if lex_lt(a, b) {
            let k = choose|k: int|
                0 <= k <= a1.len() && k <= b1.len() && #[trigger] a1.take(k) == b1.take(k) && ((k == a1.len() && k
                    < b1.len()) || (k < a1.len() && k < b1.len() && a1[k] < b1[k]));
            assert(a.take(k + 1) =~= seq![a[0]] + a1.take(k));
            assert(b.take(k + 1) =~= seq![b[0]] + b1.take(k));
            assert(a.take(k + 1) == b.take(k + 1));
        }
        if exists|k: int|
            0 <= k <= a.len() && k <= b.len() && #[trigger] a.take(k) == b.take(k) && ((k == a.len() && k
                < b.len()) || (k < a.len() && k < b.len() && a[k] < b[k])) {
            let k = choose|k: int|
                0 <= k <= a.len() && k <= b.len() && #[trigger] a.take(k) == b.take(k) && ((k == a.len() && k
                    < b.len()) || (k < a.len() && k < b.len() && a[k] < b[k]));
            assert(k >= 1);
            assert(a1.take(k - 1) =~= a.take(k).drop_first());
            assert(b1.take(k - 1) =~= b.take(k).drop_first());
            assert(a1.take(k - 1) == b1.take(k - 1));
        }
    }
}

} // verus!

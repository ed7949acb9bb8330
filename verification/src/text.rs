//! Character-level text helpers shared by the scorer, the event miner and the
//! run bookkeeping: case mapping, searching, splitting, trimming and decimal
//! numbers, all over sequences of `char`.

use vstd::prelude::*;

verus! {

/// `c` is one of `a` to `z`.
pub open spec fn is_ascii_lower(c: char) -> bool {
    'a' <= c && c <= 'z'
}

/// `c` is one of `0` to `9`.
pub open spec fn is_ascii_digit(c: char) -> bool {
    '0' <= c && c <= '9'
}

/// `c` is an ASCII letter or digit.
pub open spec fn is_ascii_alnum(c: char) -> bool {
    ||| 'a' <= c && c <= 'z'
    ||| 'A' <= c && c <= 'Z'
    ||| '0' <= c && c <= '9'
}

/// The Unicode lowercase form of a whole string, as `str::to_lowercase`
/// computes it.
pub uninterp spec fn lowercase(s: Seq<char>) -> Seq<char>;

/// Whether `c` has the Unicode `White_Space` property (`PropList.txt`), which
/// is what `char::is_whitespace` decides: tab, line feed, vertical tab, form
/// feed, carriage return, space, next line, no-break space, ogham space mark,
/// the spaces U+2000 to U+200A, line and paragraph separators, narrow
/// no-break space, medium mathematical space and ideographic space.
pub open spec fn white_space(c: char) -> bool {
    ||| '\u{9}' <= c && c <= '\u{d}'
    ||| c == ' '
    ||| c == '\u{85}'
    ||| c == '\u{a0}'
    ||| c == '\u{1680}'
    ||| '\u{2000}' <= c && c <= '\u{200a}'
    ||| c == '\u{2028}'
    ||| c == '\u{2029}'
    ||| c == '\u{202f}'
    ||| c == '\u{205f}'
    ||| c == '\u{3000}'
}

/// `c` is an ASCII character.
pub open spec fn is_ascii_char(c: char) -> bool {
    c <= '\u{7f}'
}

/// The ASCII lowercase of `c`: `A` to `Z` become `a` to `z`, every other
/// character stays.
pub open spec fn ascii_lower_char(c: char) -> char {
    if 'A' <= c && c <= 'Z' {
        ((c as u32) + 32) as char
    } else {
        c
    }
}

/// `s` with `A` to `Z` replaced by `a` to `z`.
pub open spec fn ascii_lowered(s: Seq<char>) -> Seq<char> {
    s.map_values(|c: char| ascii_lower_char(c))
}

/// Calls `str::to_lowercase`. The contract names its result, and states the
/// ASCII part of Unicode case mapping: a text of ASCII characters lowercases
/// character by character, `A` to `Z` to `a` to `z`, everything else
/// unchanged (no ASCII character has another lowercase mapping, and the one
/// context-dependent rule, for capital sigma, concerns no ASCII character).
/// How non-ASCII characters map (which may change the length of the text) is
/// not spelled out here.
#[verifier::external_body]
pub(crate) fn to_lowercase(s: &str) -> (res: String)
    ensures
        res@ == lowercase(s@),
        (forall|i: int| 0 <= i < s@.len() ==> is_ascii_char(#[trigger] s@[i])) ==> res@ == ascii_lowered(s@),
{
    s.to_lowercase()
}

/// Whether `c` is whitespace, as `char::is_whitespace` decides it: whether
/// it has the Unicode `White_Space` property.
pub(crate) fn is_whitespace(c: char) -> (b: bool)
    ensures
        b == white_space(c),
{
    ('\u{9}' <= c && c <= '\u{d}') || c == ' ' || c == '\u{85}' || c == '\u{a0}' || c == '\u{1680}'
        || ('\u{2000}' <= c && c <= '\u{200a}') || c == '\u{2028}' || c == '\u{2029}' || c == '\u{202f}'
        || c == '\u{205f}' || c == '\u{3000}'
}

/// The characters of `s`, in order.
pub fn chars_of(s: &str) -> (v: Vec<char>)
    ensures
        v@ == s@,
{
    broadcast use vstd::string::axiom_spec_iter;
    let mut v: Vec<char> = Vec::new();
    for c in it: s.chars()
        invariant
            it.seq() == s@,
            v@ == it.seq().take(it.index() as int),
    {
        v.push(c);
        assert(it.seq().take(it.index() + 1) =~= it.seq().take(it.index() as int).push(c));
    }
    assert(s@.take(s@.len() as int) =~= s@);
    v
}

/// Calls `String::push`: appends `c` to `s`.
#[verifier::external_body]
fn push_char(s: &mut String, c: char)
    ensures
        final(s)@ == old(s)@.push(c),
{
    s.push(c);
}

/// The string made of the characters of `v`, in order.
pub fn string_of(v: &Vec<char>) -> (s: String)
    ensures
        s@ == v@,
{
    let mut s = String::new();
    let mut i: usize = 0;
    while i < v.len()
        invariant
            i <= v@.len(),
            s@ == v@.take(i as int),
        decreases v@.len() - i,
    {
        push_char(&mut s, v[i]);
        assert(v@.take(i + 1) =~= v@.take(i as int).push(v@[i as int]));
        i += 1;
    }
    assert(v@.take(v@.len() as int) =~= v@);
    s
}

/// The characters of `s` that are `a` to `z`, in order.
pub open spec fn ascii_lower_only(s: Seq<char>) -> Seq<char> {
    s.filter(|c: char| is_ascii_lower(c))
}

/// Keeps the characters `a` to `z` of `s` and drops every other one.
pub fn keep_ascii_lowercase(s: &str) -> (r: String)
    ensures
        r@ == ascii_lower_only(s@),
{
    let v = chars_of(s);
    let mut out: Vec<char> = Vec::new();
    let n = v.len();
    let mut i: usize = 0;
    while i < n
        invariant
            n == v@.len(),
            v@ == s@,
            i <= n,
            out@ == ascii_lower_only(v@.take(i as int)),
        decreases n - i,
    {
        let c = v[i];
        proof {
            assert(v@.take(i + 1) =~= v@.take(i as int).push(c));
            v@.take(i as int).lemma_filter_push(c, |c: char| is_ascii_lower(c));
        }
        if 'a' <= c && c <= 'z' {
            out.push(c);
        }
        i += 1;
    }
    assert(v@.take(n as int) =~= v@);
    string_of(&out)
}

/// Everything that `keep_ascii_lowercase` returns is made of `a` to `z`.
pub proof fn lemma_ascii_lower_only_is_lower(s: Seq<char>)
    ensures
        forall|i: int|
            0 <= i < ascii_lower_only(s).len() ==> is_ascii_lower(#[trigger] ascii_lower_only(s)[i]),
{
    let pred = |c: char| is_ascii_lower(c);
    assert forall|i: int| 0 <= i < s.filter(pred).len() implies is_ascii_lower(
        #[trigger] s.filter(pred)[i],
    ) by {
        s.lemma_filter_pred(pred, i);
    }
}

/// A text of `a` to `z` only keeps all of its characters.
pub proof fn lemma_ascii_lower_only_keeps(s: Seq<char>)
    requires
        forall|i: int| 0 <= i < s.len() ==> is_ascii_lower(#[trigger] s[i]),
    ensures
        ascii_lower_only(s) == s,
    decreases s.len(),
{
    let pred = |c: char| is_ascii_lower(c);
    if s.len() == 0 {
        reveal(Seq::filter);
        assert(ascii_lower_only(s) =~= s);
    } else {
        let p = s.drop_last();
        assert forall|i: int| 0 <= i < p.len() implies is_ascii_lower(#[trigger] p[i]) by {
            assert(p[i] == s[i]);
        }
        lemma_ascii_lower_only_keeps(p);
        assert(s =~= p.push(s.last()));
        p.lemma_filter_push(s.last(), pred);
        assert(is_ascii_lower(s[s.len() - 1]));
    }
}

/// ASCII lowercasing leaves a text of `a` to `z` as it is.
pub proof fn lemma_ascii_lowered_keeps(s: Seq<char>)
    requires
        forall|i: int| 0 <= i < s.len() ==> is_ascii_lower(#[trigger] s[i]),
    ensures
        ascii_lowered(s) == s,
{
    assert forall|i: int| 0 <= i < s.len() implies #[trigger] ascii_lowered(s)[i] == s[i] by {
        assert(is_ascii_lower(s[i]));
    }
    assert(ascii_lowered(s) =~= s);
}

/// Keeping the lowercase letters twice keeps the same letters as once.
pub proof fn lemma_ascii_lower_only_idempotent(s: Seq<char>)
    ensures
        ascii_lower_only(ascii_lower_only(s)) == ascii_lower_only(s),
    decreases s.len(),
{
    let pred = |c: char| is_ascii_lower(c);
    if s.len() == 0 {
        reveal(Seq::filter);
        assert(ascii_lower_only(s) =~= s);
    } else {
        let p = s.drop_last();
        lemma_ascii_lower_only_idempotent(p);
        assert(s =~= p.push(s.last()));
        p.lemma_filter_push(s.last(), pred);
        if pred(s.last()) {
            p.filter(pred).lemma_filter_push(s.last(), pred);
        }
    }
}

/// `n` occurs in `h` starting at index `i`.
pub open spec fn occurs_at(h: Seq<char>, n: Seq<char>, i: int) -> bool {
    0 <= i && i + n.len() <= h.len() && h.subrange(i, i + n.len()) == n
}

/// `n` occurs somewhere in `h` (the empty text occurs everywhere).
pub open spec fn has_substring(h: Seq<char>, n: Seq<char>) -> bool {
    exists|i: int| occurs_at(h, n, i)
}

/// `p` is a prefix of `s`.
pub open spec fn has_prefix(s: Seq<char>, p: Seq<char>) -> bool {
    p.len() <= s.len() && s.take(p.len() as int) == p
}

/// `p` is a suffix of `s`.
pub open spec fn has_suffix(s: Seq<char>, p: Seq<char>) -> bool {
    p.len() <= s.len() && s.skip(s.len() - p.len()) == p
}

/// Whether `n` occurs at index `i` of `h`.
fn matches_at(h: &Vec<char>, n: &Vec<char>, i: usize) -> (b: bool)
    requires
        i + n@.len() <= h@.len(),
    ensures
        b == occurs_at(h@, n@, i as int),
{
    let mut j: usize = 0;
    while j < n.len()
        invariant
            i + n@.len() <= h.len(),
            j <= n@.len(),
            h@.subrange(i as int, i + j) == n@.take(j as int),
        decreases n@.len() - j,
    {
        if h[i + j] != n[j] {
            assert(h@.subrange(i as int, i + n@.len())[j as int] != n@[j as int]);
            return false;
        }
        assert(h@.subrange(i as int, i + j + 1) =~= h@.subrange(i as int, i + j).push(h@[i + j]));
        assert(n@.take(j + 1) =~= n@.take(j as int).push(n@[j as int]));
        j += 1;
    }
    assert(n@.take(n@.len() as int) =~= n@);
    true
}

/// Whether `n` occurs somewhere in `h`.
pub fn contains_chars(h: &Vec<char>, n: &Vec<char>) -> (b: bool)
    ensures
        b == has_substring(h@, n@),
{
    if n.len() > h.len() {
        assert forall|i: int| !occurs_at(h@, n@, i) by {}
        return false;
    }
    if n.len() == 0 {
        assert(h@.subrange(0, 0) =~= n@);
        assert(occurs_at(h@, n@, 0));
        return true;
    }
    let last = h.len() - n.len();
    let mut i: usize = 0;
    while i <= last
        invariant
            last + n@.len() == h.len(),
            n@.len() >= 1,
            forall|k: int| 0 <= k < i ==> !occurs_at(h@, n@, k),
        decreases last + 1 - i,
    {
        if matches_at(h, n, i) {
            return true;
        }
        i += 1;
    }
    assert forall|k: int| !occurs_at(h@, n@, k) by {
        if 0 <= k < i {
        }
    }
    false
}

/// Whether `s` ends with `p`.
pub fn ends_with_chars(s: &Vec<char>, p: &Vec<char>) -> (b: bool)
    ensures
        b == has_suffix(s@, p@),
{
    if p.len() > s.len() {
        return false;
    }
    let start = s.len() - p.len();
    let r = matches_at(s, p, start);
    assert(s@.skip(start as int) =~= s@.subrange(start as int, start + p@.len()));
    r
}

/// Whether `s` starts with `p`.
pub fn starts_with_chars(s: &Vec<char>, p: &Vec<char>) -> (b: bool)
    ensures
        b == has_prefix(s@, p@),
{
    if p.len() > s.len() {
        return false;
    }
    let r = matches_at(s, p, 0);
    assert(s@.take(p@.len() as int) =~= s@.subrange(0, p@.len() as int));
    r
}

/// The character of the decimal digit `d`.
pub open spec fn digit_char(d: nat) -> char {
    (48 + d) as char
}

/// The decimal numeral of `n`, without sign or leading zeros.
pub open spec fn decimal(n: nat) -> Seq<char>
    decreases n,
{
    if n < 10 {
        seq![digit_char(n)]
    } else {
        decimal(n / 10).push(digit_char(n % 10))
    }
}

/// Appends the decimal numeral of `n` to `out`.
pub fn push_decimal(out: &mut Vec<char>, n: u64)
    ensures
        final(out)@ == old(out)@ + decimal(n as nat),
    decreases n,
{
    if n >= 10 {
        push_decimal(out, n / 10);
    }
    let d: u8 = (n % 10) as u8;
    let c: char = (48u8 + d) as char;
    out.push(c);
    proof {
        assert(c == digit_char((n % 10) as nat));
    }
    assert(final(out)@ =~= old(out)@ + decimal(n as nat));
}

/// Whether `a` and `b` hold the same characters.
pub fn same_chars(a: &Vec<char>, b: &Vec<char>) -> (r: bool)
    ensures
        r == (a@ == b@),
{
    if a.len() != b.len() {
        return false;
    }
    let mut i: usize = 0;
    while i < a.len()
        invariant
            a@.len() == b@.len(),
            i <= a@.len(),
            forall|j: int| 0 <= j < i ==> a@[j] == b@[j],
        decreases a@.len() - i,
    {
        if a[i] != b[i] {
            return false;
        }
        i += 1;
    }
    assert(a@ =~= b@);
    true
}

/// Whether the texts `a` and `b` are equal.
pub fn str_eq(a: &str, b: &str) -> (r: bool)
    ensures
        r == (a@ == b@),
{
    let av = chars_of(a);
    let bv = chars_of(b);
    same_chars(&av, &bv)
}

/// Appends the characters of `s` to `out`.
pub fn append_chars(out: &mut Vec<char>, s: &str)
    ensures
        final(out)@ == old(out)@ + s@,
{
    let v = chars_of(s);
    let ghost start = out@;
    let mut i: usize = 0;
    while i < v.len()
        invariant
            i <= v@.len(),
            out@ == start + v@.take(i as int),
        decreases v@.len() - i,
    {
        out.push(v[i]);
        assert(v@.take(i + 1) =~= v@.take(i as int).push(v@[i as int]));
        i += 1;
    }
    assert(v@.take(v@.len() as int) =~= v@);
}

/// `s` without its leading whitespace.
pub open spec fn trim_start(s: Seq<char>) -> Seq<char>
    decreases s.len(),
{
    if s.len() > 0 && white_space(s[0]) {
        trim_start(s.drop_first())
    } else {
        s
    }
}

/// `s` without its trailing whitespace.
pub open spec fn trim_end(s: Seq<char>) -> Seq<char>
    decreases s.len(),
{
    if s.len() > 0 && white_space(s.last()) {
        trim_end(s.drop_last())
    } else {
        s
    }
}

/// `s` without leading and trailing whitespace, as `str::trim` gives it.
pub open spec fn trimmed(s: Seq<char>) -> Seq<char> {
    trim_end(trim_start(s))
}

/// Removes leading and trailing whitespace.
pub fn trim_chars(s: &Vec<char>) -> (t: Vec<char>)
    ensures
        t@ == trimmed(s@),
{
    let n = s.len();
    let mut start: usize = 0;
    assert(s@.skip(0) =~= s@);
    while start < n && is_whitespace(s[start])
        invariant
            n == s@.len(),
            start <= n,
            trim_start(s@) == trim_start(s@.skip(start as int)),
        decreases n - start,
    {
        assert(s@.skip(start as int).drop_first() =~= s@.skip(start + 1));
        start += 1;
    }
    let ghost rest = s@.skip(start as int);
    assert(trim_start(s@) == rest);
    let mut end: usize = n;
    while end > start && is_whitespace(s[end - 1])
        invariant
            n == s@.len(),
            start <= end <= n,
            rest == s@.skip(start as int),
            trim_end(rest) == trim_end(s@.subrange(start as int, end as int)),
        decreases end,
    {
        assert(s@.subrange(start as int, end as int).drop_last() =~= s@.subrange(
            start as int,
            end - 1,
        ));
        end -= 1;
    }
    assert(rest =~= s@.subrange(start as int, n as int));
    let mut t: Vec<char> = Vec::new();
    let mut k: usize = start;
    while k < end
        invariant
            start <= k <= end <= n,
            n == s@.len(),
            t@ == s@.subrange(start as int, k as int),
        decreases end - k,
    {
        t.push(s[k]);
        assert(s@.subrange(start as int, k + 1) =~= s@.subrange(start as int, k as int).push(
            s@[k as int],
        ));
        k += 1;
    }
    t
}

/// The pieces of `s` between occurrences of `sep`, as `str::split` yields
/// them: `n` separators give `n + 1` pieces, some of them possibly empty.
pub open spec fn split_char(s: Seq<char>, sep: char) -> Seq<Seq<char>>
    decreases s.len(),
{
    if s.len() == 0 {
        seq![Seq::<char>::empty()]
    } else {
        let parts = split_char(s.drop_last(), sep);
        if s.last() == sep {
            parts.push(Seq::<char>::empty())
        } else {
            parts.update(parts.len() - 1, parts.last().push(s.last()))
        }
    }
}

/// There is always at least one piece.
pub proof fn lemma_split_char_len(s: Seq<char>, sep: char)
    ensures
        split_char(s, sep).len() >= 1,
    decreases s.len(),
{
    if s.len() > 0 {
        lemma_split_char_len(s.drop_last(), sep);
    }
}

/// The character sequences of a list of character vectors.
pub open spec fn char_seqs(v: Seq<Vec<char>>) -> Seq<Seq<char>> {
    v.map_values(|x: Vec<char>| x@)
}

/// Splits `s` at every `sep`.
pub fn split_chars(s: &Vec<char>, sep: char) -> (parts: Vec<Vec<char>>)
    ensures
        char_seqs(parts@) == split_char(s@, sep),
{
    let n = s.len();
    let mut parts: Vec<Vec<char>> = Vec::new();
    let mut cur: Vec<char> = Vec::new();
    let mut i: usize = 0;
    proof {
        assert(s@.take(0) =~= Seq::<char>::empty());
        assert(split_char(Seq::<char>::empty(), sep).drop_last() =~= Seq::<Seq<char>>::empty());
        assert(char_seqs(parts@) =~= Seq::<Seq<char>>::empty());
    }
    while i < n
        invariant
            n == s@.len(),
            i <= n,
            split_char(s@.take(i as int), sep).len() >= 1,
            cur@ == split_char(s@.take(i as int), sep).last(),
            char_seqs(parts@) == split_char(s@.take(i as int), sep).drop_last(),
        decreases n - i,
    {
        let c = s[i];
        let ghost old_parts = split_char(s@.take(i as int), sep);
        proof {
            assert(s@.take(i + 1).drop_last() =~= s@.take(i as int));
            assert(s@.take(i + 1).last() == c);
        }
        if c == sep {
            let ghost before = char_seqs(parts@);
            parts.push(cur);
            cur = Vec::new();
            proof {
                assert(char_seqs(parts@) =~= before.push(old_parts.last()));
                assert(old_parts =~= old_parts.drop_last().push(old_parts.last()));
                assert(split_char(s@.take(i + 1), sep).drop_last() =~= old_parts);
            }
        } else {
            cur.push(c);
            proof {
                assert(split_char(s@.take(i + 1), sep).drop_last() =~= old_parts.drop_last());
            }
        }
        i += 1;
    }
    let ghost before = char_seqs(parts@);
    parts.push(cur);
    proof {
        assert(s@.take(n as int) =~= s@);
        let all = split_char(s@, sep);
        assert(char_seqs(parts@) =~= before.push(all.last()));
        assert(all =~= all.drop_last().push(all.last()));
    }
    parts
}

/// The value of a sequence of decimal digits.
pub open spec fn digits_value(s: Seq<char>) -> nat
    decreases s.len(),
{
    if s.len() == 0 {
        0
    } else {
        digits_value(s.drop_last()) * 10 + ((s.last() as int - 48) as nat)
    }
}

/// Every character of `s` is a decimal digit.
pub open spec fn all_digits(s: Seq<char>) -> bool {
    forall|i: int| 0 <= i < s.len() ==> is_ascii_digit(#[trigger] s[i])
}

/// The `u8` that `str::parse::<u8>` reads from `s`: an optional `+`, then at
/// least one decimal digit, with a value of at most 255.
pub open spec fn parse_u8_spec(s: Seq<char>) -> Option<u8> {
    let d = if s.len() > 0 && s[0] == '+' {
        s.drop_first()
    } else {
        s
    };
    if d.len() > 0 && all_digits(d) && digits_value(d) <= 255 {
        Some(digits_value(d) as u8)
    } else {
        None
    }
}

/// Reads a `u8` in decimal, as `str::parse::<u8>` does.
pub fn parse_u8(s: &Vec<char>) -> (r: Option<u8>)
    ensures
        r == parse_u8_spec(s@),
{
    let mut i: usize = 0;
    if s.len() > 0 && s[0] == '+' {
        i = 1;
    }
    let ghost d = if s@.len() > 0 && s@[0] == '+' {
        s@.drop_first()
    } else {
        s@
    };
    assert(d =~= s@.skip(i as int));
    if i >= s.len() {
        return None;
    }
    let mut acc: u32 = 0;
    let mut k: usize = i;
    while k < s.len()
        invariant
            i <= k <= s@.len(),
            d == s@.skip(i as int),
            d == (if s@.len() > 0 && s@[0] == '+' {
                s@.drop_first()
            } else {
                s@
            }),
            all_digits(s@.subrange(i as int, k as int)),
            acc as nat == (if digits_value(s@.subrange(i as int, k as int)) < 256 {
                digits_value(s@.subrange(i as int, k as int))
            } else {
                256
            }),
        decreases s@.len() - k,
    {
        let c = s[k];
        if !('0' <= c && c <= '9') {
            assert(d[k - i] == c);
            assert(!is_ascii_digit(d[k - i]));
            assert(!all_digits(d));
            return None;
        }
        let dv: u32 = (c as u32) - 48;
        let ghost pre = s@.subrange(i as int, k as int);
        assert(s@.subrange(i as int, k + 1) =~= pre.push(c));
        assert(s@.subrange(i as int, k + 1).drop_last() =~= pre);
        let next = acc * 10 + dv;
        acc = if next < 256 { next } else { 256 };
        k += 1;
    }
    assert(s@.subrange(i as int, s@.len() as int) =~= d);
    if acc <= 255 {
        Some(acc as u8)
    } else {
        None
    }
}

/// Trimming removes exactly the leading and trailing whitespace: what is left
/// is a middle part of the text, everything cut off before and after it is
/// whitespace, and it neither starts nor ends with whitespace.
pub proof fn law_trimmed(s: Seq<char>)
    ensures
        exists|a: int, b: int|
            0 <= a <= b <= s.len() && trimmed(s) == s.subrange(a, b) && (forall|i: int|
                0 <= i < a ==> white_space(#[trigger] s[i])) && (forall|i: int| b <= i < s.len() ==> white_space(
                #[trigger] s[i],
            )),
        trimmed(s).len() > 0 ==> !white_space(trimmed(s)[0]) && !white_space(trimmed(s).last()),
{
    lemma_trim_start(s);
    let a = choose|a: int| 0 <= a <= s.len() && trim_start(s) == s.skip(a) && forall|i: int| 0 <= i < a ==> white_space(#[trigger] s[i]);
    let u = s.skip(a);
    lemma_trim_end(u);
    let b = choose|b: int| 0 <= b <= u.len() && trim_end(u) == u.take(b) && forall|i: int| b <= i < u.len() ==> white_space(#[trigger] u[i]);
    assert(u.take(b) =~= s.subrange(a, a + b));
    assert forall|i: int| a + b <= i < s.len() implies white_space(#[trigger] s[i]) by {
        assert(u[i - a] == s[i]);
    }
    if trimmed(s).len() > 0 {
        if a + b < s.len() {
        }
        assert(trim_end(u).len() > 0);
        lemma_trim_end_first(u);
    }
}

proof fn lemma_trim_start(s: Seq<char>)
    ensures
        exists|a: int| 0 <= a <= s.len() && trim_start(s) == s.skip(a) && forall|i: int|
            0 <= i < a ==> white_space(#[trigger] s[i]),
        trim_start(s).len() > 0 ==> !white_space(trim_start(s)[0]),
    decreases s.len(),
{
    if s.len() > 0 && white_space(s[0]) {
        lemma_trim_start(s.drop_first());
        let a = choose|a: int| 0 <= a <= s.drop_first().len() && trim_start(s.drop_first()) == s.drop_first().skip(a)
            && forall|i: int| 0 <= i < a ==> white_space(#[trigger] s.drop_first()[i]);
        assert(s.drop_first().skip(a) =~= s.skip(a + 1));
        assert forall|i: int| 0 <= i < a + 1 implies white_space(#[trigger] s[i]) by {
            if i > 0 {
                assert(s.drop_first()[i - 1] == s[i]);
            }
        }
    } else {
        assert(s.skip(0) =~= s);
    }
}

proof fn lemma_trim_end(s: Seq<char>)
    ensures
        exists|b: int| 0 <= b <= s.len() && trim_end(s) == s.take(b) && forall|i: int|
            b <= i < s.len() ==> white_space(#[trigger] s[i]),
        trim_end(s).len() > 0 ==> !white_space(trim_end(s).last()),
    decreases s.len(),
{
    if s.len() > 0 && white_space(s.last()) {
        lemma_trim_end(s.drop_last());
        let b = choose|b: int| 0 <= b <= s.drop_last().len() && trim_end(s.drop_last()) == s.drop_last().take(b)
            && forall|i: int| b <= i < s.drop_last().len() ==> white_space(#[trigger] s.drop_last()[i]);
        assert(s.drop_last().take(b) =~= s.take(b));
        assert forall|i: int| b <= i < s.len() implies white_space(#[trigger] s[i]) by {
            if i < s.len() - 1 {
                assert(s.drop_last()[i] == s[i]);
            }
        }
    } else {
        assert(s.take(s.len() as int) =~= s);
    }
}

/// Trimming the end of a text that does not start with whitespace leaves a
/// text that does not start with whitespace.
proof fn lemma_trim_end_first(u: Seq<char>)
    requires
        trim_end(u).len() > 0,
        u.len() > 0 ==> !white_space(u[0]),
    ensures
        !white_space(trim_end(u)[0]),
    decreases u.len(),
{
    if u.len() > 0 && white_space(u.last()) {
        if u.drop_last().len() > 0 {
            assert(u.drop_last()[0] == u[0]);
        }
        lemma_trim_end_first(u.drop_last());
    }
}

proof fn lemma_digit_char(d: nat)
    requires
        d < 10,
    ensures
        digit_char(d) as int == 48 + d,
        is_ascii_digit(digit_char(d)),
{
    if d == 0 {
        assert(digit_char(0) == '0');
    } else if d == 1 {
        assert(digit_char(1) == '1');
    } else if d == 2 {
        assert(digit_char(2) == '2');
    } else if d == 3 {
        assert(digit_char(3) == '3');
    } else if d == 4 {
        assert(digit_char(4) == '4');
    } else if d == 5 {
        assert(digit_char(5) == '5');
    } else if d == 6 {
        assert(digit_char(6) == '6');
    } else if d == 7 {
        assert(digit_char(7) == '7');
    } else if d == 8 {
        assert(digit_char(8) == '8');
    } else {
        assert(digit_char(9) == '9');
    }
}

/// The decimal numeral of `n` reads back as `n`: it is made of digits, it
/// starts with a non-zero digit unless it is `0` itself, and its digits'
/// value is `n`.
pub proof fn law_decimal(n: nat)
    ensures
        decimal(n).len() >= 1,
        all_digits(decimal(n)),
        digits_value(decimal(n)) == n,
        decimal(n).len() > 1 ==> decimal(n)[0] != '0',
        n >= 10 ==> decimal(n).len() > 1,
    decreases n,
{
    if n < 10 {
        lemma_digit_char(n);
        let e = decimal(n);
        assert(e.drop_last() =~= Seq::<char>::empty());
        assert(digits_value(e) == digits_value(e.drop_last()) * 10 + (e.last() as int - 48));
    } else {
        lemma_digit_char(n % 10);
        law_decimal(n / 10);
        let d = decimal(n / 10);
        let e = d.push(digit_char(n % 10));
        assert(decimal(n) == e);
        assert(e.drop_last() =~= d);
        assert(e[0] == d[0]);
        assert(e.last() == digit_char(n % 10));
        assert(digits_value(e) == digits_value(d) * 10 + (e.last() as int - 48));
        assert(n == (n / 10) * 10 + n % 10);
        assert forall|i: int| 0 <= i < e.len() implies is_ascii_digit(#[trigger] e[i]) by {
            if i < d.len() {
                assert(e[i] == d[i]);
            }
        }
        if n / 10 < 10 {
            lemma_digit_char(n / 10);
            assert(d[0] == digit_char(n / 10));
        }
    }
}

} // verus!

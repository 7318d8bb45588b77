//! Small verified helpers over ASCII byte strings: whitespace trimming,
//! edge-stripping, case-insensitive comparison and substring search.

use vstd::prelude::*;

verus! {

/// ASCII whitespace: tab, line feed, form feed, carriage return, space.
pub open spec fn is_ws(b: u8) -> bool {
    b == 9 || b == 10 || b == 12 || b == 13 || b == 32
}

/// Length of the longest all-whitespace prefix of `s`.
pub open spec fn ws_run(s: Seq<u8>) -> nat
    decreases s.len(),
{
    if s.len() > 0 && is_ws(s[0]) {
        1 + ws_run(s.drop_first())
    } else {
        0
    }
}

/// Length of the longest all-whitespace suffix of `s`.
pub open spec fn ws_run_end(s: Seq<u8>) -> nat
    decreases s.len(),
{
    if s.len() > 0 && is_ws(s.last()) {
        1 + ws_run_end(s.drop_last())
    } else {
        0
    }
}

/// Length of the longest prefix of `s` made only of the byte `c`.
pub open spec fn eq_run(s: Seq<u8>, c: u8) -> nat
    decreases s.len(),
{
    if s.len() > 0 && s[0] == c {
        1 + eq_run(s.drop_first(), c)
    } else {
        0
    }
}

/// Length of the longest suffix of `s` made only of the byte `c`.
pub open spec fn eq_run_end(s: Seq<u8>, c: u8) -> nat
    decreases s.len(),
{
    if s.len() > 0 && s.last() == c {
        1 + eq_run_end(s.drop_last(), c)
    } else {
        0
    }
}

/// `s` with its leading whitespace removed.
pub open spec fn trim_start_spec(s: Seq<u8>) -> Seq<u8> {
    s.skip(ws_run(s) as int)
}

/// `s` with its leading and trailing whitespace removed.
pub open spec fn trim_spec(s: Seq<u8>) -> Seq<u8> {
    let t = trim_start_spec(s);
    t.take(t.len() - ws_run_end(t))
}

/// `s` with its leading and trailing runs of the byte `c` removed.
pub open spec fn strip_spec(s: Seq<u8>, c: u8) -> Seq<u8> {
    let t = s.skip(eq_run(s, c) as int);
    t.take(t.len() - eq_run_end(t, c))
}

/// The whitespace prefix run ends exactly at the first non-whitespace index.
pub proof fn lemma_ws_run_at(s: Seq<u8>, a: int)
    requires
        0 <= a <= s.len(),
        forall|k: int| 0 <= k < a ==> is_ws(s[k]),
        a < s.len() ==> !is_ws(s[a]),
    ensures
        ws_run(s) == a,
    decreases s.len(),
{
    if s.len() > 0 && is_ws(s[0]) {
        assert(a >= 1) by {
            assert(a == 0 ==> !is_ws(s[0]));
        }
        let t = s.drop_first();
        assert(forall|k: int| 0 <= k < a - 1 ==> is_ws(t[k]));
        lemma_ws_run_at(t, a - 1);
    } else {
        if a > 0 {
            assert(is_ws(s[0]));
        }
    }
}

/// The whitespace suffix run starts exactly after the last
/// non-whitespace index.
pub proof fn lemma_ws_run_end_at(s: Seq<u8>, b: int)
    requires
        0 <= b <= s.len(),
        forall|k: int| b <= k < s.len() ==> is_ws(s[k]),
        b > 0 ==> !is_ws(s[b - 1]),
    ensures
        ws_run_end(s) == s.len() - b,
    decreases s.len(),
{
    if s.len() > 0 && is_ws(s.last()) {
        assert(b < s.len()) by {
            assert(b == s.len() ==> !is_ws(s[b - 1]));
        }
        let t = s.drop_last();
        lemma_ws_run_end_at(t, b);
    } else {
        if s.len() > 0 && b < s.len() {
            assert(is_ws(s.last()));
        }
    }
}

/// The `c`-prefix run ends exactly at the first differing index.
pub proof fn lemma_eq_run_at(s: Seq<u8>, c: u8, a: int)
    requires
        0 <= a <= s.len(),
        forall|k: int| 0 <= k < a ==> s[k] == c,
        a < s.len() ==> s[a] != c,
    ensures
        eq_run(s, c) == a,
    decreases s.len(),
{
    if s.len() > 0 && s[0] == c {
        let t = s.drop_first();
        assert(forall|k: int| 0 <= k < a - 1 ==> t[k] == c);
        lemma_eq_run_at(t, c, a - 1);
    } else {
    }
}

/// The `c`-suffix run starts exactly after the last differing index.
pub proof fn lemma_eq_run_end_at(s: Seq<u8>, c: u8, b: int)
    requires
        0 <= b <= s.len(),
        forall|k: int| b <= k < s.len() ==> s[k] == c,
        b > 0 ==> s[b - 1] != c,
    ensures
        eq_run_end(s, c) == s.len() - b,
    decreases s.len(),
{
    if s.len() > 0 && s.last() == c {
        let t = s.drop_last();
        lemma_eq_run_end_at(t, c, b);
    } else {
    }
}

/// Whether `pat` occurs in `s` at position `i`.
pub open spec fn match_at(s: Seq<u8>, pat: Seq<u8>, i: int) -> bool {
    0 <= i && i + pat.len() <= s.len() && s.subrange(i, i + pat.len()) == pat
}

/// The first position at or after `from` where `pat` occurs in `s`.
pub open spec fn find_from(s: Seq<u8>, pat: Seq<u8>, from: int) -> Option<int>
    decreases s.len() + 1 - from,
{
    if from < 0 || from + pat.len() > s.len() {
        None
    } else if match_at(s, pat, from) {
        Some(from)
    } else {
        find_from(s, pat, from + 1)
    }
}

/// A found position lies at or after `from`, fits `pat` inside `s`, and
/// is a real match.
pub proof fn lemma_find_from_some(s: Seq<u8>, pat: Seq<u8>, from: int, i: int)
    requires
        find_from(s, pat, from) == Some(i),
    ensures
        from <= i,
        i + pat.len() <= s.len(),
        match_at(s, pat, i),
    decreases s.len() + 1 - from,
{
    if from < 0 || from + pat.len() > s.len() {
        assert(false);
    } else if match_at(s, pat, from) {
    } else {
        lemma_find_from_some(s, pat, from + 1, i);
    }
}

/// Tests whether `b` is ASCII whitespace.
pub fn ws_byte(b: u8) -> (r: bool)
    ensures
        r == is_ws(b),
{
    b == 9 || b == 10 || b == 12 || b == 13 || b == 32
}

/// The part of `s` between its leading and trailing whitespace.
pub fn trim_ws(s: &[u8]) -> (r: Vec<u8>)
    ensures
        r@ == trim_spec(s@),
{
    let mut a: usize = 0;
    while a < s.len() && ws_byte(s[a])
        invariant
            a <= s@.len(),
            forall|k: int| 0 <= k < a ==> is_ws(s@[k]),
        decreases s@.len() - a,
    {
        a += 1;
    }
    proof {
        lemma_ws_run_at(s@, a as int);
    }
    let mut b: usize = s.len();
    while b > a && ws_byte(s[b - 1])
        invariant
            a <= b <= s@.len(),
            forall|k: int| b <= k < s@.len() ==> is_ws(s@[k]),
        decreases b,
    {
        b -= 1;
    }
    proof {
        let t = trim_start_spec(s@);
        assert(t =~= s@.subrange(a as int, s@.len() as int));
        if b == a {
            lemma_ws_run_end_at(t, 0);
        } else {
            lemma_ws_run_end_at(t, b - a);
        }
        assert(t.take(t.len() - ws_run_end(t)) =~= s@.subrange(a as int, b as int));
    }
    copy_range(s, a, b)
}

/// The part of `s` between its leading and trailing runs of the byte `c`.
pub fn strip_matching(s: &[u8], c: u8) -> (r: Vec<u8>)
    ensures
        r@ == strip_spec(s@, c),
{
    let mut a: usize = 0;
    while a < s.len() && s[a] == c
        invariant
            a <= s@.len(),
            forall|k: int| 0 <= k < a ==> s@[k] == c,
        decreases s@.len() - a,
    {
        a += 1;
    }
    proof {
        lemma_eq_run_at(s@, c, a as int);
    }
    let mut b: usize = s.len();
    while b > a && s[b - 1] == c
        invariant
            a <= b <= s@.len(),
            forall|k: int| b <= k < s@.len() ==> s@[k] == c,
        decreases b,
    {
        b -= 1;
    }
    proof {
        let t = s@.skip(eq_run(s@, c) as int);
        assert(t =~= s@.subrange(a as int, s@.len() as int));
        if b == a {
            lemma_eq_run_end_at(t, c, 0);
        } else {
            lemma_eq_run_end_at(t, c, b - a);
        }
        assert(t.take(t.len() - eq_run_end(t, c)) =~= s@.subrange(a as int, b as int));
    }
    copy_range(s, a, b)
}

/// `s` with its leading whitespace removed.
pub fn trim_ws_start(s: &[u8]) -> (r: Vec<u8>)
    ensures
        r@ == trim_start_spec(s@),
{
    let mut a: usize = 0;
    while a < s.len() && ws_byte(s[a])
        invariant
            a <= s@.len(),
            forall|k: int| 0 <= k < a ==> is_ws(s@[k]),
        decreases s@.len() - a,
    {
        a += 1;
    }
    proof {
        lemma_ws_run_at(s@, a as int);
        assert(trim_start_spec(s@) =~= s@.subrange(a as int, s@.len() as int));
    }
    copy_range(s, a, s.len())
}

/// Copies `s[a..b]` into a fresh vector.
pub fn copy_range(s: &[u8], a: usize, b: usize) -> (r: Vec<u8>)
    requires
        a <= b <= s@.len(),
    ensures
        r@ == s@.subrange(a as int, b as int),
{
    let mut out: Vec<u8> = Vec::new();
    let mut k: usize = a;
    while k < b
        invariant
            a <= k <= b <= s@.len(),
            out@ == s@.subrange(a as int, k as int),
        decreases b - k,
    {
        out.push(s[k]);
        k += 1;
        assert(out@ =~= s@.subrange(a as int, k as int));
    }
    out
}

/// Whether `pat` occurs in `s` at position `i`.
pub fn match_bytes_at(s: &[u8], pat: &[u8], i: usize) -> (r: bool)
    requires
        i <= s@.len(),
    ensures
        r == match_at(s@, pat@, i as int),
{
    let n = s.len();
    let m = pat.len();
    if n - i < m {
        return false;
    }
    let mut k: usize = 0;
    while k < m
        invariant
            k <= m == pat@.len(),
            i + m <= n == s@.len(),
            forall|j: int| 0 <= j < k ==> s@[i + j] == pat@[j],
        decreases m - k,
    {
        if s[i + k] != pat[k] {
            assert(s@.subrange(i as int, i + pat@.len())[k as int] != pat@[k as int]);
            return false;
        }
        k += 1;
    }
    assert(s@.subrange(i as int, i + pat@.len()) =~= pat@);
    true
}

/// The first position at or after `from` where `pat` occurs in `s`.
pub fn find_bytes_from(s: &[u8], pat: &[u8], from: usize) -> (r: Option<usize>)
    requires
        from <= s@.len(),
    ensures
        match r {
            Some(i) => find_from(s@, pat@, from as int) == Some(i as int) && from <= i,
            None => find_from(s@, pat@, from as int) is None,
        },
{
    let n = s.len();
    if pat.len() == 0 {
        proof {
            assert(s@.subrange(from as int, from as int) =~= pat@);
        }
        return Some(from);
    }
    let mut i: usize = from;
    loop
        invariant
            from <= i <= n == s@.len(),
            pat@.len() >= 1,
            find_from(s@, pat@, from as int) == find_from(s@, pat@, i as int),
        decreases s@.len() - i,
    {
        if n - i < pat.len() {
            return None;
        }
        if match_bytes_at(s, pat, i) {
            return Some(i);
        }
        i += 1;
    }
}

/// ASCII lower-casing of one byte: `A`..`Z` gain 32, all else unchanged.
pub open spec fn lower(b: u8) -> u8 {
    if 65 <= b && b <= 90 {
        (b + 32) as u8
    } else {
        b
    }
}

/// Whether `a` and `b` are equal up to ASCII case.
pub open spec fn eq_ignore_case(a: Seq<u8>, b: Seq<u8>) -> bool {
    a.map_values(|x: u8| lower(x)) == b.map_values(|x: u8| lower(x))
}

/// Compares two byte strings ignoring ASCII case.
pub fn eq_ignore_case_bytes(a: &[u8], b: &[u8]) -> (r: bool)
    ensures
        r == eq_ignore_case(a@, b@),
{
    proof {
        assert(a@.map_values(|x: u8| lower(x)).len() == a@.len());
        assert(b@.map_values(|x: u8| lower(x)).len() == b@.len());
    }
    if a.len() != b.len() {
        return false;
    }
    let mut k: usize = 0;
    while k < a.len()
        invariant
            k <= a@.len(),
            a@.len() == b@.len(),
            forall|j: int| 0 <= j < k ==> lower(a@[j]) == lower(b@[j]),
        decreases a@.len() - k,
    {
        let mut x = a[k];
        let mut y = b[k];
        if 65 <= x && x <= 90 {
            x = x + 32;
        }
        if 65 <= y && y <= 90 {
            y = y + 32;
        }
        if x != y {
            assert(a@.map_values(|q: u8| lower(q))[k as int] != b@.map_values(
                |q: u8| lower(q),
            )[k as int]);
            return false;
        }
        k += 1;
    }
    assert(a@.map_values(|x: u8| lower(x)) =~= b@.map_values(|x: u8| lower(x)));
    true
}

} // verus!

//! Operations on strings, stated over their character sequences.
use vstd::prelude::*;
use vstd::string::*;

verus! {

/// `p` is a prefix of `s`.
pub open spec fn is_prefix_of(p: Seq<char>, s: Seq<char>) -> bool {
    p.len() <= s.len() && s.subrange(0, p.len() as int) == p
}

/// `p` occurs somewhere in `s` as a contiguous run of characters.
pub open spec fn has_substring(s: Seq<char>, p: Seq<char>) -> bool {
    exists|k: int| 0 <= k && k + p.len() <= s.len() && #[trigger] s.subrange(k, k + p.len()) == p
}

/// Lowercase form of a character sequence as Rust's `str::to_lowercase`
/// computes it (Unicode lowercase mapping).
pub uninterp spec fn lowercase(s: Seq<char>) -> Seq<char>;

/// Calls `str::to_lowercase`. The contract only names the result: it is the
/// `lowercase` of the argument's characters, a function of them alone.
#[verifier::external_body]
pub(crate) fn to_lowercase(s: &str) -> (r: String)
    ensures
        r@ == lowercase(s@),
{
    s.to_lowercase()
}

/// The characters of `s`, in order.
pub fn chars_of(s: &str) -> (v: Vec<char>)
    ensures
        v@ == s@,
{
    let n = s.unicode_len();
    let mut v: Vec<char> = Vec::new();
    for i in 0..n
        invariant
            n == s@.len(),
            v@ == s@.subrange(0, i as int),
    {
        let c = s.get_char(i);
        v.push(c);
        assert(v@ =~= s@.subrange(0, i + 1));
    }
    assert(v@ =~= s@);
    v
}

/// Whether the window of `s` of the length of `p` at `start` equals `p`.
fn window_equals(s: &Vec<char>, start: usize, p: &Vec<char>) -> (r: bool)
    requires
        start + p@.len() <= s@.len(),
    ensures
        r == (s@.subrange(start as int, start + p@.len()) == p@),
{
    let m = p.len();
    for j in 0..m
        invariant
            m == p@.len(),
            start + m <= s@.len(),
            s@.len() == s.len(),
            forall|k: int| 0 <= k < j ==> s@[start + k] == p@[k],
    {
        if s[start + j] != p[j] {
            assert(s@.subrange(start as int, start + m)[j as int] != p@[j as int]);
            return false;
        }
    }
    assert(s@.subrange(start as int, start + m) =~= p@);
    true
}

/// Character-wise equality of two strings.
pub fn str_eq(a: &str, b: &str) -> (r: bool)
    ensures
        r == (a@ == b@),
{
    let av = chars_of(a);
    let bv = chars_of(b);
    if av.len() != bv.len() {
        return false;
    }
    let r = window_equals(&av, 0, &bv);
    assert(av@.subrange(0, bv@.len() as int) =~= av@);
    r
}

/// Whether `s` begins with `p`.
pub fn starts_with(s: &str, p: &str) -> (r: bool)
    ensures
        r == is_prefix_of(p@, s@),
{
    let sv = chars_of(s);
    let pv = chars_of(p);
    if pv.len() > sv.len() {
        return false;
    }
    window_equals(&sv, 0, &pv)
}

/// Whether `p` occurs in `s`.
pub fn contains_str(s: &str, p: &str) -> (r: bool)
    ensures
        r == has_substring(s@, p@),
{
    let sv = chars_of(s);
    let pv = chars_of(p);
    let n = sv.len();
    let m = pv.len();
    if m > n {
        return false;
    }
    if m == 0 {
        assert(s@.subrange(0, 0 + p@.len() as int) =~= p@);
        return true;
    }
    let last = n - m;
    let mut k: usize = 0;
    while k <= last
        invariant
            n == s@.len(),
            m == p@.len(),
            last == n - m,
            m >= 1,
            sv@ == s@,
            pv@ == p@,
            k <= last + 1,
            forall|k2: int| 0 <= k2 < k ==> #[trigger] s@.subrange(k2, k2 + m) != p@,
        decreases last + 1 - k,
    {
        if window_equals(&sv, k, &pv) {
            return true;
        }
        k = k + 1;
    }
    assert forall|k2: int| 0 <= k2 && k2 + m <= n implies #[trigger] s@.subrange(k2, k2 + m) != p@ by {
        assert(k2 < k);
    }
    false
}

/// The characters of `a` followed by those of `b`, as a new string.
pub fn concat_str(a: &str, b: &str) -> (r: String)
    ensures
        r@ == a@ + b@,
{
    let mut r = String::from_str(a);
    r.append(b);
    r
}


/// The first position at or after `k` where `a` and `b` differ or one of
/// them ends.
pub open spec fn first_difference(a: Seq<char>, b: Seq<char>, k: nat) -> nat
    decreases a.len() - k,
{
    if k >= a.len() || k >= b.len() || a[k as int] != b[k as int] {
        k
    } else {
        first_difference(a, b, k + 1)
    }
}

/// Lexicographic order of character sequences by code point, a proper
/// prefix first: the order of Rust's `Ord` on strings.
pub open spec fn lex_lt(a: Seq<char>, b: Seq<char>) -> bool {
    let d = first_difference(a, b, 0);
    if d < a.len() && d < b.len() {
        a[d as int] < b[d as int]
    } else {
        a.len() < b.len()
    }
}

/// Every element precedes every later one in `lex_lt`.
pub open spec fn strictly_sorted(s: Seq<Seq<char>>) -> bool {
    forall|i: int, j: int| 0 <= i < j < s.len() ==> lex_lt(#[trigger] s[i], #[trigger] s[j])
}

pub proof fn lemma_first_difference(a: Seq<char>, b: Seq<char>, k: nat)
    requires
        k <= a.len(),
        k <= b.len(),
    ensures
        k <= first_difference(a, b, k) <= a.len(),
        first_difference(a, b, k) <= b.len(),
        forall|j: int| k <= j < first_difference(a, b, k) ==> a[j] == b[j],
        first_difference(a, b, k) < a.len() && first_difference(a, b, k) < b.len() ==> a[first_difference(a, b, k) as int] != b[first_difference(a, b, k) as int],
        first_difference(a, b, k) == first_difference(b, a, k),
    decreases a.len() - k,
{
    if !(k >= a.len() || k >= b.len() || a[k as int] != b[k as int]) {
        lemma_first_difference(a, b, k + 1);
    }
}

proof fn lemma_first_difference_full(a: Seq<char>, b: Seq<char>)
    ensures
        first_difference(a, b, 0) <= a.len(),
        first_difference(a, b, 0) <= b.len(),
        forall|j: int| 0 <= j < first_difference(a, b, 0) ==> a[j] == b[j],
        first_difference(a, b, 0) < a.len() && first_difference(a, b, 0) < b.len() ==> a[first_difference(a, b, 0) as int] != b[first_difference(a, b, 0) as int],
        first_difference(a, b, 0) == first_difference(b, a, 0),
        first_difference(a, b, 0) == a.len() && a.len() == b.len() ==> a == b,
{
    lemma_first_difference(a, b, 0);
    if first_difference(a, b, 0) == a.len() && a.len() == b.len() {
        assert(a =~= b);
    }
}

/// `lex_lt` is a strict total order.
pub proof fn lemma_lex_lt_order(a: Seq<char>, b: Seq<char>, c: Seq<char>)
    ensures
        !lex_lt(a, a),
        lex_lt(a, b) ==> !lex_lt(b, a),
        a != b ==> lex_lt(a, b) || lex_lt(b, a),
        lex_lt(a, b) && lex_lt(b, c) ==> lex_lt(a, c),
{
    lemma_first_difference_full(a, a);
    lemma_first_difference_full(a, b);
    lemma_first_difference_full(b, c);
    lemma_first_difference_full(a, c);
    let d1 = first_difference(a, b, 0);
    let d2 = first_difference(b, c, 0);
    let d3 = first_difference(a, c, 0);
    if lex_lt(a, b) && lex_lt(b, c) {
        if d1 < d2 {
            assert forall|j: int| 0 <= j < d1 implies a[j] == c[j] by {
                assert(a[j] == b[j]);
                assert(b[j] == c[j]);
            }
            if d1 < a.len() {
                assert(d1 < b.len());
                assert(b[d1 as int] == c[d1 as int]);
                if d3 < d1 {
                    assert(a[d3 as int] == c[d3 as int]);
                }
                assert(d3 == d1) by {
                    if d3 > d1 {
                        assert(a[d1 as int] == c[d1 as int]);
                    }
                }
            } else {
                assert(d3 == d1) by {
                    if d3 < d1 {
                        assert(a[d3 as int] == c[d3 as int]);
                    }
                }
            }
        } else if d2 < d1 {
            assert forall|j: int| 0 <= j < d2 implies a[j] == c[j] by {
                assert(a[j] == b[j]);
                assert(b[j] == c[j]);
            }
            assert(d2 < b.len());
            assert(a[d2 as int] == b[d2 as int]);
            assert(d3 == d2) by {
                if d3 < d2 {
                    assert(a[d3 as int] == c[d3 as int]);
                }
                if d3 > d2 && d2 < c.len() {
                    assert(a[d2 as int] == c[d2 as int]);
                }
            }
        } else {
            assert forall|j: int| 0 <= j < d1 implies a[j] == c[j] by {
                assert(a[j] == b[j]);
                assert(b[j] == c[j]);
            }
            assert(d3 == d1) by {
                if d3 < d1 {
                    assert(a[d3 as int] == c[d3 as int]);
                }
                if d3 > d1 && d1 < a.len() && d1 < c.len() {
                    assert(a[d1 as int] == c[d1 as int]);
                }
            }
        }
    }
}

/// Whether `a` precedes `b` lexicographically.
pub fn str_lt(a: &str, b: &str) -> (r: bool)
    ensures
        r == lex_lt(a@, b@),
{
    let av = chars_of(a);
    let bv = chars_of(b);
    let n = av.len();
    let m = bv.len();
    let mut k: usize = 0;
    while k < n && k < m && av[k] == bv[k]
        invariant
            n == a@.len(),
            m == b@.len(),
            av@ == a@,
            bv@ == b@,
            k <= n,
            k <= m,
            first_difference(a@, b@, 0) == first_difference(a@, b@, k as nat),
        decreases n - k,
    {
        k = k + 1;
    }
    if k < n && k < m {
        av[k] < bv[k]
    } else {
        n < m
    }
}


/// Calls `String::push`, which appends one character.
#[verifier::external_body]
pub(crate) fn push_char(s: &mut String, c: char)
    ensures
        final(s)@ == old(s)@.push(c),
{
    s.push(c);
}

/// Removes the last character of `s` and returns it; returns `None` and
/// leaves an empty string as it is.
pub fn pop_char(s: &mut String) -> (r: Option<char>)
    ensures
        old(s)@.len() == 0 ==> r is None && final(s)@ == old(s)@,
        old(s)@.len() > 0 ==> r == Some(old(s)@.last()) && final(s)@ == old(s)@.drop_last(),
{
    let n = s.as_str().unicode_len();
    if n == 0 {
        None
    } else {
        let c = s.as_str().get_char(n - 1);
        let rest = String::from_str(s.as_str().substring_char(0, n - 1));
        assert(rest@ =~= old(s)@.drop_last());
        *s = rest;
        Some(c)
    }
}

/// The part of `s` after its prefix `p`, when `s` starts with `p`.
pub fn strip_prefix(s: &str, p: &str) -> (r: Option<String>)
    ensures
        is_prefix_of(p@, s@) ==> (r matches Some(t) && t@ == s@.subrange(p@.len() as int, s@.len() as int)),
        !is_prefix_of(p@, s@) ==> r is None,
{
    if starts_with(s, p) {
        let from = p.unicode_len();
        let to = s.unicode_len();
        Some(String::from_str(s.substring_char(from, to)))
    } else {
        None
    }
}


/// `path` with a leading `~` replaced by `home`, when `path` starts with
/// `~/` and a home directory is known; otherwise `path` as it is.
pub fn expand_home(path: &str, home: Option<&str>) -> (r: String)
    ensures
        (is_prefix_of("~/"@, path@) && home is Some) ==> r@ == home->0@ + path@.subrange(1, path@.len() as int),
        !(is_prefix_of("~/"@, path@) && home is Some) ==> r@ == path@,
{
    proof {
        reveal_strlit("~/");
        reveal_strlit("~");
    }
    if starts_with(path, "~/") {
        if let Some(h) = home {
            assert(is_prefix_of("~"@, path@)) by {
                assert(path@.subrange(0, 2) == "~/"@);
                assert(path@[0] == path@.subrange(0, 2)[0]);
                assert(path@.subrange(0, 1) =~= "~"@);
            }
            if let Some(rest) = strip_prefix(path, "~") {
                return concat_str(h, rest.as_str());
            }
        }
    }
    String::from_str(path)
}

} // verus!

//! Facts about sequences used by the counting and collecting functions.
use vstd::prelude::*;

verus! {

/// `s` with every element dropped that occurs earlier in `acc` or in `s`,
/// appended to `acc`.
pub open spec fn add_missing<A>(acc: Seq<A>, s: Seq<A>) -> Seq<A>
    decreases s.len(),
{
    if s.len() == 0 {
        acc
    } else {
        let a = add_missing(acc, s.drop_last());
        if a.contains(s.last()) {
            a
        } else {
            a.push(s.last())
        }
    }
}

/// The distinct elements of `s` in the order of their first occurrence.
pub open spec fn first_occurrences<A>(s: Seq<A>) -> Seq<A> {
    add_missing(Seq::empty(), s)
}

/// How often `x` occurs in `s`.
pub open spec fn count_of<A>(s: Seq<A>, x: A) -> nat
    decreases s.len(),
{
    if s.len() == 0 {
        0
    } else {
        count_of(s.drop_last(), x) + if s.last() == x { 1nat } else { 0nat }
    }
}


pub proof fn lemma_count_of_push<A>(s: Seq<A>, x: A, k: A)
    ensures
        count_of(s.push(x), k) == count_of(s, k) + if x == k { 1nat } else { 0nat },
{
    assert(s.push(x).drop_last() =~= s);
}

pub proof fn lemma_add_missing_push<A>(acc: Seq<A>, s: Seq<A>, x: A)
    ensures
        add_missing(acc, s.push(x)) == (if add_missing(acc, s).contains(x) {
            add_missing(acc, s)
        } else {
            add_missing(acc, s).push(x)
        }),
{
    assert(s.push(x).drop_last() =~= s);
}

/// An element is counted exactly when it occurs.
pub proof fn lemma_count_of_contains<A>(s: Seq<A>, x: A)
    ensures
        (count_of(s, x) > 0) == s.contains(x),
        count_of(s, x) <= s.len(),
    decreases s.len(),
{
    if s.len() > 0 {
        lemma_count_of_contains(s.drop_last(), x);
        assert(s =~= s.drop_last().push(s.last()));
        if s.drop_last().contains(x) {
            let j = choose|j: int| 0 <= j < s.drop_last().len() && s.drop_last()[j] == x;
            assert(s[j] == x);
        }
        if s.contains(x) {
            let j = choose|j: int| 0 <= j < s.len() && s[j] == x;
            if j < s.len() - 1 {
                assert(s.drop_last()[j] == x);
            }
        }
    }
}

/// `add_missing` keeps `acc`, adds only elements of `s`, adds every element
/// of `s`, and adds nothing twice.
pub proof fn lemma_add_missing<A>(acc: Seq<A>, s: Seq<A>)
    requires
        acc.no_duplicates(),
    ensures
        add_missing(acc, s).no_duplicates(),
        add_missing(acc, s).subrange(0, acc.len() as int) == acc,
        acc.len() <= add_missing(acc, s).len(),
        forall|x: A| #[trigger] add_missing(acc, s).contains(x) <==> (acc.contains(x) || s.contains(x)),
    decreases s.len(),
{
    if s.len() > 0 {
        let s0 = s.drop_last();
        let x = s.last();
        lemma_add_missing(acc, s0);
        let a = add_missing(acc, s0);
        assert(s =~= s0.push(x));
        assert forall|y: A| s.contains(y) <==> (s0.contains(y) || y == x) by {
            if s.contains(y) {
                let j = choose|j: int| 0 <= j < s.len() && s[j] == y;
                if j < s.len() - 1 {
                    assert(s0[j] == y);
                }
            }
            if s0.contains(y) {
                let j = choose|j: int| 0 <= j < s0.len() && s0[j] == y;
                assert(s[j] == y);
            }
            if y == x {
                assert(s[s.len() - 1] == y);
            }
        }
        if !a.contains(x) {
            let b = a.push(x);
            assert(b.subrange(0, acc.len() as int) =~= a.subrange(0, acc.len() as int));
            assert forall|y: A| b.contains(y) <==> (a.contains(y) || y == x) by {
                if b.contains(y) {
                    let j = choose|j: int| 0 <= j < b.len() && b[j] == y;
                    if j < a.len() {
                        assert(a[j] == y);
                    }
                }
                if a.contains(y) {
                    let j = choose|j: int| 0 <= j < a.len() && a[j] == y;
                    assert(b[j] == y);
                }
                if y == x {
                    assert(b[b.len() - 1] == y);
                }
            }
        }
    }
}

/// The distinct elements of a sequence are exactly its elements, once each.
pub proof fn lemma_first_occurrences<A>(s: Seq<A>)
    ensures
        first_occurrences(s).no_duplicates(),
        forall|x: A| #[trigger] first_occurrences(s).contains(x) <==> s.contains(x),
{
    lemma_add_missing(Seq::<A>::empty(), s);
}


/// Sum, over the elements `k` of `keys`, of the occurrences of `k` in `s`.
pub open spec fn sum_count_keys<A>(keys: Seq<A>, s: Seq<A>) -> nat
    decreases keys.len(),
{
    if keys.len() == 0 {
        0
    } else {
        sum_count_keys(keys.drop_last(), s) + count_of(s, keys.last())
    }
}

pub proof fn lemma_sum_count_keys_push<A>(keys: Seq<A>, s: Seq<A>, x: A)
    ensures
        sum_count_keys(keys, s.push(x)) == sum_count_keys(keys, s) + count_of(keys, x),
    decreases keys.len(),
{
    if keys.len() > 0 {
        lemma_sum_count_keys_push(keys.drop_last(), s, x);
        lemma_count_of_push(s, x, keys.last());
    }
}

/// In a sequence without duplicates, a contained element occurs once.
pub proof fn lemma_count_of_no_duplicates<A>(s: Seq<A>, x: A)
    requires
        s.no_duplicates(),
        s.contains(x),
    ensures
        count_of(s, x) == 1,
    decreases s.len(),
{
    let s0 = s.drop_last();
    lemma_count_of_contains(s0, x);
    if s.last() == x {
        if s0.contains(x) {
            let j = choose|j: int| 0 <= j < s0.len() && s0[j] == x;
            assert(s[j] == s[s.len() - 1]);
        }
    } else {
        let j = choose|j: int| 0 <= j < s.len() && s[j] == x;
        assert(s0[j] == x);
        lemma_count_of_no_duplicates(s0, x);
    }
}

/// Counting every distinct element of `s` accounts for all of `s`.
pub proof fn lemma_sum_first_occurrences<A>(s: Seq<A>)
    ensures
        sum_count_keys(first_occurrences(s), s) == s.len(),
    decreases s.len(),
{
    if s.len() > 0 {
        let s0 = s.drop_last();
        let x = s.last();
        assert(s =~= s0.push(x));
        lemma_sum_first_occurrences(s0);
        lemma_first_occurrences(s0);
        let f = first_occurrences(s0);
        lemma_add_missing_push(Seq::<A>::empty(), s0, x);
        lemma_sum_count_keys_push(f, s0, x);
        if f.contains(x) {
            lemma_count_of_no_duplicates(f, x);
        } else {
            lemma_count_of_contains(f, x);
            lemma_count_of_contains(s0, x);
            lemma_count_of_push(s0, x, x);
            assert(f.push(x).drop_last() =~= f);
        }
    }
}


pub proof fn lemma_add_missing_add<A>(acc: Seq<A>, a: Seq<A>, b: Seq<A>)
    ensures
        add_missing(acc, a + b) == add_missing(add_missing(acc, a), b),
    decreases b.len(),
{
    if b.len() == 0 {
        assert(a + b =~= a);
    } else {
        lemma_add_missing_add(acc, a, b.drop_last());
        assert((a + b).drop_last() =~= a + b.drop_last());
        assert((a + b).last() == b.last());
    }
}

} // verus!

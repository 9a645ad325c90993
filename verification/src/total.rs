//! Sums over sequences, and why their order does not matter.

use vstd::prelude::*;
use vstd::seq_lib::{to_multiset_contains, to_multiset_len, to_multiset_remove};

verus! {

/// The sum of `f` over the items of `s`.
pub open spec fn total<T>(s: Seq<T>, f: spec_fn(T) -> int) -> int
    decreases s.len(),
{
    if s.len() == 0 {
        0
    } else {
        total(s.drop_last(), f) + f(s.last())
    }
}

/// The sum over a concatenation is the sum of the two sums.
pub proof fn lemma_total_concat<T>(a: Seq<T>, b: Seq<T>, f: spec_fn(T) -> int)
    ensures
        total(a + b, f) == total(a, f) + total(b, f),
    decreases b.len(),
{
    if b.len() == 0 {
        assert(a + b =~= a);
    } else {
        assert((a + b).drop_last() =~= a + b.drop_last());
        assert((a + b).last() == b.last());
        lemma_total_concat(a, b.drop_last(), f);
    }
}

/// Taking one item out lowers the sum by what that item gave.
pub proof fn lemma_total_remove<T>(s: Seq<T>, i: int, f: spec_fn(T) -> int)
    requires
        0 <= i < s.len(),
    ensures
        total(s, f) == total(s.remove(i), f) + f(s[i]),
{
    let before = s.take(i);
    let one = seq![s[i]];
    let after = s.skip(i + 1);
    assert(s =~= (before + one) + after);
    assert(s.remove(i) =~= before + after);
    lemma_total_concat(before + one, after, f);
    lemma_total_concat(before, one, f);
    lemma_total_concat(before, after, f);
    assert(one.drop_last() =~= Seq::<T>::empty());
    assert(total(one, f) == f(s[i])) by {
        assert(one.last() == s[i]);
        assert(total(one.drop_last(), f) == 0);
    }
}

/// Two sequences that hold the same items, each as often, have the same sum.
pub proof fn lemma_total_permutation<T>(a: Seq<T>, b: Seq<T>, f: spec_fn(T) -> int)
    requires
        a.to_multiset() == b.to_multiset(),
    ensures
        total(a, f) == total(b, f),
    decreases a.len(),
{
    to_multiset_len(a);
    to_multiset_len(b);
    if a.len() > 0 {
        let last = a.last();
        let n = a.len() - 1;
        assert(a[n] == last);
        to_multiset_contains(a, last);
        to_multiset_contains(b, last);
        let i = choose|i: int| 0 <= i < b.len() && b[i] == last;
        to_multiset_remove(a, n);
        to_multiset_remove(b, i);
        assert(a.remove(n) =~= a.drop_last());
        lemma_total_permutation(a.drop_last(), b.remove(i), f);
        lemma_total_remove(b, i, f);
    }
}

} // verus!

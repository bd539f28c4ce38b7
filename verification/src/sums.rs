//! Sums of integer weights over a sequence, and the facts about them that
//! the search and the relaxation passes rest on.

use vstd::prelude::*;

verus! {

/// The sum of `weight` over the elements of `s`.
pub open spec fn total<A>(s: Seq<A>, weight: spec_fn(A) -> int) -> int
    decreases s.len(),
{
    if s.len() == 0 {
        0
    } else {
        total(s.drop_last(), weight) + weight(s.last())
    }
}

/// The sum over a concatenation is the sum of the sums.
pub proof fn lemma_total_concat<A>(a: Seq<A>, b: Seq<A>, weight: spec_fn(A) -> int)
    ensures
        total(a + b, weight) == total(a, weight) + total(b, weight),
    decreases b.len(),
{
    if b.len() == 0 {
        assert(a + b =~= a);
    } else {
        lemma_total_concat(a, b.drop_last(), weight);
        assert((a + b).drop_last() =~= a + b.drop_last());
        assert((a + b).last() == b.last());
    }
}

/// Taking one element out lowers the sum by that element's weight.
pub proof fn lemma_total_remove<A>(s: Seq<A>, i: int, weight: spec_fn(A) -> int)
    requires
        0 <= i < s.len(),
    ensures
        total(s, weight) == total(s.remove(i), weight) + weight(s[i]),
{
    let head = s.subrange(0, i);
    let one = seq![s[i]];
    let tail = s.subrange(i + 1, s.len() as int);
    assert(s =~= head + one + tail);
    assert(s.remove(i) =~= head + tail);
    lemma_total_concat(head + one, tail, weight);
    lemma_total_concat(head, one, weight);
    lemma_total_concat(head, tail, weight);
    assert(total(one, weight) == weight(s[i])) by {
        assert(one.drop_last() =~= Seq::<A>::empty());
        assert(one.last() == s[i]);
        assert(total(one.drop_last(), weight) == 0);
    }
}

/// The sum does not depend on the order of the elements.
pub proof fn lemma_total_permutation<A>(a: Seq<A>, b: Seq<A>, weight: spec_fn(A) -> int)
    requires
        a.to_multiset() == b.to_multiset(),
    ensures
        total(a, weight) == total(b, weight),
    decreases a.len(),
{
    broadcast use vstd::seq_lib::group_to_multiset_ensures;

    if a.len() == 0 {
        assert(b.to_multiset().len() == 0);
        assert(b.len() == 0);
    } else {
        let x = a.last();
        assert(a.contains(x));
        assert(b.to_multiset().count(x) > 0);
        assert(b.contains(x));
        let i = choose|i: int| 0 <= i < b.len() && b[i] == x;
        assert(a.drop_last() =~= a.remove(a.len() - 1));
        assert(a.drop_last().to_multiset() == b.remove(i).to_multiset());
        lemma_total_permutation(a.drop_last(), b.remove(i), weight);
        lemma_total_remove(b, i, weight);
    }
}

/// A sum of weights that all lie in `lo..=hi` lies within the element count
/// times those limits.
pub proof fn lemma_total_bounds<A>(s: Seq<A>, weight: spec_fn(A) -> int, lo: int, hi: int)
    requires
        forall|i: int| 0 <= i < s.len() ==> lo <= #[trigger] weight(s[i]) <= hi,
    ensures
        s.len() * lo <= total(s, weight) <= s.len() * hi,
    decreases s.len(),
{
    if s.len() > 0 {
        let t = s.drop_last();
        assert forall|i: int| 0 <= i < t.len() implies lo <= #[trigger] weight(t[i]) <= hi by {
            assert(t[i] == s[i]);
        }
        lemma_total_bounds(t, weight, lo, hi);
        assert(lo <= weight(s[s.len() - 1]) <= hi);
        assert(s.len() * lo == t.len() * lo + lo) by (nonlinear_arith)
            requires
                s.len() == t.len() + 1,
        ;
        assert(s.len() * hi == t.len() * hi + hi) by (nonlinear_arith)
            requires
                s.len() == t.len() + 1,
        ;
    }
}

/// If each weight lies between `lo` and `hi` times a count of the same
/// element, then the sum of the weights lies between `lo` and `hi` times
/// the sum of the counts.
pub proof fn lemma_total_scaled<A>(
    s: Seq<A>,
    weight: spec_fn(A) -> int,
    count: spec_fn(A) -> int,
    lo: int,
    hi: int,
)
    requires
        forall|i: int|
            0 <= i < s.len() ==> lo * #[trigger] count(s[i]) <= weight(s[i]) <= hi * count(s[i]),
    ensures
        lo * total(s, count) <= total(s, weight) <= hi * total(s, count),
    decreases s.len(),
{
    if s.len() > 0 {
        let t = s.drop_last();
        assert forall|i: int| 0 <= i < t.len() implies lo * #[trigger] count(t[i]) <= weight(t[i])
            <= hi * count(t[i]) by {
            assert(t[i] == s[i]);
        }
        lemma_total_scaled(t, weight, count, lo, hi);
        let c = count(s[s.len() - 1]);
        assert(lo * c <= weight(s[s.len() - 1]) <= hi * c);
        assert(lo * (total(t, count) + c) == lo * total(t, count) + lo * c) by (nonlinear_arith);
        assert(hi * (total(t, count) + c) == hi * total(t, count) + hi * c) by (nonlinear_arith);
    }
}

/// A sum of weights none of which is negative is positive exactly when one
/// of the weights is.
pub proof fn lemma_total_positive<A>(s: Seq<A>, weight: spec_fn(A) -> int)
    requires
        forall|i: int| 0 <= i < s.len() ==> #[trigger] weight(s[i]) >= 0,
    ensures
        total(s, weight) >= 0,
        total(s, weight) > 0 <==> exists|i: int| 0 <= i < s.len() && #[trigger] weight(s[i]) > 0,
    decreases s.len(),
{
    if s.len() > 0 {
        let t = s.drop_last();
        assert forall|i: int| 0 <= i < t.len() implies #[trigger] weight(t[i]) >= 0 by {
            assert(t[i] == s[i]);
        }
        lemma_total_positive(t, weight);
        assert(weight(s[s.len() - 1]) >= 0);
        if total(s, weight) > 0 {
            if weight(s.last()) > 0 {
                assert(weight(s[s.len() - 1]) > 0);
            } else {
                let i = choose|i: int| 0 <= i < t.len() && #[trigger] weight(t[i]) > 0;
                assert(t[i] == s[i]);
                assert(weight(s[i]) > 0);
            }
        }
        if exists|i: int| 0 <= i < s.len() && #[trigger] weight(s[i]) > 0 {
            let i = choose|i: int| 0 <= i < s.len() && #[trigger] weight(s[i]) > 0;
            if i < t.len() {
                assert(t[i] == s[i]);
                assert(weight(t[i]) > 0);
            }
        }
    }
}

} // verus!

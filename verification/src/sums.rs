//! Sums over sequences.

use vstd::prelude::*;

verus! {

/// The sum of `f` over some things.
pub open spec fn sum_of<A>(s: Seq<A>, f: spec_fn(A) -> int) -> int
    decreases s.len(),
{
    if s.len() == 0 {
        0
    } else {
        sum_of(s.drop_last(), f) + f(s.last())
    }
}

/// Smaller summands make a smaller sum.
pub proof fn lemma_sum_le<A>(s: Seq<A>, f: spec_fn(A) -> int, g: spec_fn(A) -> int)
    requires
        forall|c: A| #[trigger] f(c) <= g(c),
    ensures
        sum_of(s, f) <= sum_of(s, g),
    decreases s.len(),
{
    if s.len() > 0 {
        lemma_sum_le(s.drop_last(), f, g);
    }
}

/// The sum over a first part is no larger than the sum over all.
pub proof fn lemma_sum_prefix<A>(s: Seq<A>, f: spec_fn(A) -> int, n: int)
    requires
        0 <= n <= s.len(),
        forall|c: A| #[trigger] f(c) >= 0,
    ensures
        0 <= sum_of(s.take(n), f) <= sum_of(s, f),
    decreases s.len(),
{
    if n < s.len() {
        assert(s.drop_last().take(n) =~= s.take(n));
        lemma_sum_prefix(s.drop_last(), f, n);
    } else {
        assert(s.take(n) =~= s);
        if n > 0 {
            let m = n - 1;
            assert(s.drop_last().take(m) =~= s.drop_last());
            lemma_sum_prefix(s.drop_last(), f, m);
        }
    }
}

/// One more adds its summand.
pub proof fn lemma_sum_step<A>(s: Seq<A>, f: spec_fn(A) -> int, n: int)
    requires
        0 <= n < s.len(),
    ensures
        sum_of(s.take(n + 1), f) == sum_of(s.take(n), f) + f(s[n]),
{
    assert(s.take(n + 1).drop_last() =~= s.take(n));
}

/// Smaller summands over a first part make a smaller sum.
pub proof fn lemma_part<A>(s: Seq<A>, f: spec_fn(A) -> int, whole: spec_fn(A) -> int, n: int)
    requires
        0 <= n <= s.len(),
        forall|c: A| 0 <= #[trigger] f(c) <= whole(c),
    ensures
        0 <= sum_of(s.take(n), f) <= sum_of(s, f) <= sum_of(s, whole),
{
    lemma_sum_prefix(s, f, n);
    lemma_sum_le(s, f, whole);
}

/// Equal summands make equal sums.
pub proof fn lemma_same_sum<A>(a: Seq<A>, b: Seq<A>, f: spec_fn(A) -> int)
    requires
        a.len() == b.len(),
        forall|i: int| 0 <= i < a.len() ==> #[trigger] f(a[i]) == f(b[i]),
    ensures
        sum_of(a, f) == sum_of(b, f),
    decreases a.len(),
{
    if a.len() > 0 {
        let (x, y) = (a.drop_last(), b.drop_last());
        assert forall|i: int| 0 <= i < x.len() implies #[trigger] f(x[i]) == f(y[i]) by {
            assert(x[i] == a[i] && y[i] == b[i]);
            assert(f(a[i]) == f(b[i]));
        }
        lemma_same_sum(x, y, f);
        assert(f(a[a.len() - 1]) == f(b[b.len() - 1]));
    }
}

/// Taking one out takes its summand away.
pub proof fn lemma_sum_remove<A>(s: Seq<A>, f: spec_fn(A) -> int, at: int)
    requires
        0 <= at < s.len(),
    ensures
        sum_of(s, f) == sum_of(s.remove(at), f) + f(s[at]),
    decreases s.len(),
{
    if at == s.len() - 1 {
        assert(s.remove(at) =~= s.drop_last());
    } else {
        lemma_sum_remove(s.drop_last(), f, at);
        assert(s.remove(at).drop_last() =~= s.drop_last().remove(at));
        assert(s.remove(at).last() == s.last());
    }
}

/// A sum over things does not depend on the order in which they came in.
pub proof fn lemma_order_does_not_matter<A>(a: Seq<A>, b: Seq<A>, f: spec_fn(A) -> int)
    requires
        a.to_multiset() == b.to_multiset(),
    ensures
        sum_of(a, f) == sum_of(b, f),
    decreases a.len(),
{
    a.to_multiset_ensures();
    b.to_multiset_ensures();
    if a.len() > 0 {
        let c = a.last();
        assert(a.contains(c)) by {
            assert(a[a.len() - 1] == c);
        }
        assert(a.to_multiset().count(c) > 0);
        assert(b.contains(c));
        let at = choose|i: int| 0 <= i < b.len() && b[i] == c;
        assert(a.remove(a.len() - 1) =~= a.drop_last());
        lemma_order_does_not_matter(a.drop_last(), b.remove(at), f);
        lemma_sum_remove(b, f, at);
    }
}

/// One more at the end adds its summand.
pub proof fn lemma_sum_push<A>(s: Seq<A>, x: A, f: spec_fn(A) -> int)
    ensures
        sum_of(s.push(x), f) == sum_of(s, f) + f(x),
{
    assert(s.push(x).drop_last() =~= s);
}

/// A sum whose summands are not negative is at least as large as each of them.
pub proof fn lemma_sum_holds<A>(s: Seq<A>, f: spec_fn(A) -> int, at: int)
    requires
        0 <= at < s.len(),
        forall|c: A| #[trigger] f(c) >= 0,
    ensures
        sum_of(s, f) >= f(s[at]),
{
    lemma_sum_remove(s, f, at);
    lemma_sum_prefix(s.remove(at), f, 0);
}

} // verus!

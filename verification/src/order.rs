//! Sorting by a total preorder.

use vstd::prelude::*;
use vstd::seq_lib::group_to_multiset_ensures;
use crate::text::chars_of;

verus! {

/// Values that can be put in a row: `a.le(b)` says that `a` may stand before `b`.
pub trait Ordered: Sized {
    /// `self` may stand before `other`.
    spec fn le(&self, other: &Self) -> bool;

    /// Of two values at least one may stand before the other.
    proof fn lemma_total(a: &Self, b: &Self)
        ensures
            a.le(b) || b.le(a),
    ;

    /// The order carries over.
    proof fn lemma_transitive(a: &Self, b: &Self, c: &Self)
        requires
            a.le(b),
            b.le(c),
        ensures
            a.le(c),
    ;

    /// Tests the order.
    fn precedes(&self, other: &Self) -> (r: bool)
        ensures
            r == self.le(other),
    ;
}

/// Every value of `s` may stand before all that follow it.
pub open spec fn sorted<T: Ordered>(s: Seq<T>) -> bool {
    forall|i: int, j: int| #![trigger s[i], s[j]] 0 <= i < j < s.len() ==> s[i].le(&s[j])
}

proof fn lemma_insert_multiset<T>(s: Seq<T>, at: int, x: T)
    requires
        0 <= at <= s.len(),
    ensures
        s.insert(at, x).to_multiset() == s.to_multiset().insert(x),
{
    broadcast use group_to_multiset_ensures;

    let t = s.insert(at, x);
    assert(t.remove(at) =~= s);
    assert(t[at] == x);
    assert(t.contains(x));
    assert(t.to_multiset().remove(x) == s.to_multiset());
    assert(t.to_multiset().count(x) > 0);
    assert(t.to_multiset() =~= s.to_multiset().insert(x));
}

/// `s` with `x` put behind all that may stand before it.
pub open spec fn placed<T: Ordered>(s: Seq<T>, x: T) -> Seq<T>
    decreases s.len(),
{
    if s.len() == 0 || s.last().le(&x) {
        s.push(x)
    } else {
        placed(s.drop_last(), x).push(s.last())
    }
}

/// The values in order; equal ones keep the order they came in.
pub open spec fn ordered<T: Ordered>(s: Seq<T>) -> Seq<T>
    decreases s.len(),
{
    if s.len() == 0 {
        s
    } else {
        placed(ordered(s.drop_last()), s.last())
    }
}

/// Puts values in order; equal ones keep the order they came in.
pub fn sort<T: Ordered>(v: Vec<T>) -> (r: Vec<T>)
    ensures
        r@ == ordered(v@),
        sorted(r@),
        r@.to_multiset() == v@.to_multiset(),
        r@.len() == v@.len(),
{
    let mut r: Vec<T> = Vec::new();
    proof {
        assert(v@.take(0) =~= r@);
    }
    for x in it: v
        invariant
            it.seq() == v@,
            sorted(r@),
            r@ == ordered(v@.take(it.index() as int)),
            r@.to_multiset() == v@.take(it.index() as int).to_multiset(),
            r@.len() == it.index(),
    {
        let ghost before = r@;
        let mut at: usize = r.len();
        proof {
            assert(before.take(at as int) =~= before);
            assert(placed(before.take(at as int), x) + before.skip(at as int) =~= placed(before, x));
        }
        while at > 0 && !r[at - 1].precedes(&x)
            invariant
                at <= r.len(),
                r@ == before,
                sorted(r@),
                forall|j: int| at <= j < r.len() ==> x.le(&#[trigger] r@[j]),
                placed(before.take(at as int), x) + before.skip(at as int) == placed(before, x),
            decreases at,
        {
            proof {
                T::lemma_total(&r@[at - 1], &x);
                let here = before.take(at as int);
                assert(here.drop_last() =~= before.take(at - 1));
                assert(here.last() == before[at - 1]);
                assert(placed(before.take(at - 1), x) + before.skip(at - 1) =~= placed(here, x)
                    + before.skip(at as int));
            }
            at -= 1;
        }
        proof {
            assert(at > 0 ==> before.take(at as int).last() == before[at - 1]);
            assert(placed(before.take(at as int), x) == before.take(at as int).push(x));
            assert(before.insert(at as int, x) =~= before.take(at as int).push(x) + before.skip(
                at as int,
            ));
            assert forall|j: int| 0 <= j < at implies (#[trigger] before[j]).le(&x) by {
                if j < at - 1 {
                    T::lemma_transitive(&before[j], &before[at - 1], &x);
                }
            }
            lemma_insert_multiset(before, at as int, x);
            broadcast use group_to_multiset_ensures;

            assert(v@.take(it.index() + 1) =~= v@.take(it.index() as int).push(x));
            assert(v@.take(it.index() + 1).drop_last() =~= v@.take(it.index() as int));
        }
        r.insert(at, x);
        assert(r@ == before.insert(at as int, x));
    }
    proof {
        assert(v@.take(v@.len() as int) =~= v@);
    }
    r
}

/// A sorted row without repetition is fixed by what it holds.
pub proof fn lemma_sorted_is_unique<T: Ordered>(a: Seq<T>, b: Seq<T>)
    requires
        sorted(a),
        sorted(b),
        a.to_multiset() == b.to_multiset(),
        forall|x: T, y: T| #![trigger x.le(&y), y.le(&x)] x.le(&y) && y.le(&x) ==> x == y,
    ensures
        a == b,
    decreases a.len(),
{
    broadcast use group_to_multiset_ensures;

    a.to_multiset_ensures();
    b.to_multiset_ensures();
    if a.len() == 0 {
        assert(a =~= b);
    } else {
        let x = a[0];
        let y = b[0];
        assert(a.contains(x) && b.contains(y));
        assert(b.contains(x)) by {
            assert(a.to_multiset().count(x) > 0);
        }
        assert(a.contains(y)) by {
            assert(b.to_multiset().count(y) > 0);
        }
        let i = choose|i: int| 0 <= i < b.len() && b[i] == x;
        let j = choose|j: int| 0 <= j < a.len() && a[j] == y;
        T::lemma_total(&x, &x);
        T::lemma_total(&y, &y);
        assert(y.le(&x));
        assert(x.le(&y));
        assert(x == y);
        let a1 = a.remove(0);
        let b1 = b.remove(0);
        assert(a1.to_multiset() == a.to_multiset().remove(x));
        assert(b1.to_multiset() == b.to_multiset().remove(x));
        lemma_sorted_is_unique(a1, b1);
        assert(a =~= seq![x] + a1);
        assert(b =~= seq![x] + b1);
    }
}

impl Ordered for i64 {
    open spec fn le(&self, other: &Self) -> bool {
        *self <= *other
    }

    proof fn lemma_total(a: &Self, b: &Self) {
    }

    proof fn lemma_transitive(a: &Self, b: &Self, c: &Self) {
    }

    fn precedes(&self, other: &Self) -> (r: bool) {
        *self <= *other
    }
}

/// Dictionary order by code point.
pub open spec fn text_le(a: Seq<char>, b: Seq<char>) -> bool
    decreases a.len(),
{
    if a.len() == 0 {
        true
    } else if b.len() == 0 {
        false
    } else if a[0] != b[0] {
        a[0] < b[0]
    } else {
        text_le(a.skip(1), b.skip(1))
    }
}

pub proof fn lemma_text_total(a: Seq<char>, b: Seq<char>)
    ensures
        text_le(a, b) || text_le(b, a),
    decreases a.len(),
{
    if a.len() > 0 && b.len() > 0 && a[0] == b[0] {
        lemma_text_total(a.skip(1), b.skip(1));
    }
}

pub proof fn lemma_text_transitive(a: Seq<char>, b: Seq<char>, c: Seq<char>)
    requires
        text_le(a, b),
        text_le(b, c),
    ensures
        text_le(a, c),
    decreases a.len(),
{
    if a.len() > 0 && b.len() > 0 && c.len() > 0 && a[0] == b[0] && b[0] == c[0] {
        lemma_text_transitive(a.skip(1), b.skip(1), c.skip(1));
    }
}

pub proof fn lemma_text_antisymmetric(a: Seq<char>, b: Seq<char>)
    requires
        text_le(a, b),
        text_le(b, a),
    ensures
        a == b,
    decreases a.len(),
{
    if a.len() > 0 && b.len() > 0 {
        lemma_text_antisymmetric(a.skip(1), b.skip(1));
        assert(a =~= seq![a[0]] + a.skip(1));
        assert(b =~= seq![b[0]] + b.skip(1));
    } else {
        assert(a =~= b);
    }
}

/// Compares two strings in dictionary order.
pub fn text_precedes(a: &str, b: &str) -> (r: bool)
    ensures
        r == text_le(a@, b@),
{
    let x = chars_of(a);
    let y = chars_of(b);
    let mut i: usize = 0;
    assert(a@.skip(0) =~= a@);
    assert(b@.skip(0) =~= b@);
    while i < x.len() && i < y.len()
        invariant
            i <= x.len(),
            i <= y.len(),
            x@ == a@,
            y@ == b@,
            text_le(a@, b@) == text_le(a@.skip(i as int), b@.skip(i as int)),
        decreases x.len() - i,
    {
        if x[i] != y[i] {
            return x[i] < y[i];
        }
        assert(a@.skip(i as int).skip(1) =~= a@.skip(i + 1));
        assert(b@.skip(i as int).skip(1) =~= b@.skip(i + 1));
        i += 1;
    }
    i == x.len()
}

/// What holds of any two different members of a row still holds after it was put in another order.
pub proof fn lemma_permuted<T>(a: Seq<T>, b: Seq<T>, p: spec_fn(T, T) -> bool)
    requires
        a.to_multiset() == b.to_multiset(),
        forall|x: T| !#[trigger] p(x, x),
        forall|i: int, j: int|
            #![trigger a[i], a[j]]
            0 <= i < a.len() && 0 <= j < a.len() && i != j ==> p(a[i], a[j]),
    ensures
        a.len() == b.len(),
        forall|x: T| #[trigger] a.contains(x) == b.contains(x),
        forall|i: int, j: int|
            #![trigger b[i], b[j]]
            0 <= i < b.len() && 0 <= j < b.len() && i != j ==> p(b[i], b[j]),
{
    a.to_multiset_ensures();
    b.to_multiset_ensures();
    assert forall|i: int, j: int| 0 <= i < j < a.len() implies a[i] != a[j] by {
        assert(p(a[i], a[j]));
        if a[i] == a[j] {
            assert(!p(a[i], a[i]));
        }
    }
    assert(a.no_duplicates());
    a.lemma_multiset_has_no_duplicates();
    b.lemma_multiset_has_no_duplicates_conv();
    assert forall|x: T| #[trigger] a.contains(x) == b.contains(x) by {
        assert(a.to_multiset().count(x) > 0 <==> a.contains(x));
        assert(b.to_multiset().count(x) > 0 <==> b.contains(x));
    }
    assert forall|i: int, j: int|
        #![trigger b[i], b[j]]
        0 <= i < b.len() && 0 <= j < b.len() && i != j implies p(b[i], b[j]) by {
        assert(b.contains(b[i]) && b.contains(b[j]));
        assert(a.contains(b[i]) && a.contains(b[j]));
        let k = choose|k: int| 0 <= k < a.len() && a[k] == b[i];
        let l = choose|l: int| 0 <= l < a.len() && a[l] == b[j];
        assert(b[i] != b[j]);
        assert(p(a[k], a[l]));
    }
}

/// Putting values in order loses none and adds none.
pub proof fn lemma_ordered<T: Ordered>(s: Seq<T>)
    ensures
        sorted(ordered(s)),
        ordered(s).to_multiset() == s.to_multiset(),
        ordered(s).len() == s.len(),
    decreases s.len(),
{
    broadcast use group_to_multiset_ensures;

    if s.len() > 0 {
        let before = s.drop_last();
        lemma_ordered(before);
        lemma_placed(ordered(before), s.last());
        assert(before.push(s.last()) =~= s);
    }
}

proof fn lemma_placed<T: Ordered>(s: Seq<T>, x: T)
    requires
        sorted(s),
    ensures
        sorted(placed(s, x)),
        placed(s, x).to_multiset() == s.to_multiset().insert(x),
        placed(s, x).len() == s.len() + 1,
        forall|y: T|
            #![trigger placed(s, x).contains(y)]
            placed(s, x).contains(y) ==> s.contains(y) || y == x,
    decreases s.len(),
{
    broadcast use group_to_multiset_ensures;

    let p = placed(s, x);
    if s.len() == 0 || s.last().le(&x) {
        assert forall|i: int, j: int| #![trigger p[i], p[j]] 0 <= i < j < p.len() implies p[i].le(
            &p[j],
        ) by {
            if j == s.len() && i < s.len() - 1 {
                assert(s[i].le(&s[s.len() - 1]));
                T::lemma_transitive(&s[i], &s[s.len() - 1], &x);
            } else if j < s.len() {
                assert(s[i].le(&s[j]));
            }
        }
        assert forall|y: T| #![trigger p.contains(y)] p.contains(y) implies s.contains(y) || y
            == x by {
            let i = choose|i: int| 0 <= i < p.len() && p[i] == y;
            if i < s.len() {
                assert(s[i] == y);
            }
        }
    } else {
        let (t, last) = (s.drop_last(), s.last());
        assert forall|i: int, j: int| #![trigger t[i], t[j]] 0 <= i < j < t.len() implies t[i].le(
            &t[j],
        ) by {
            assert(s[i].le(&s[j]));
        }
        lemma_placed(t, x);
        T::lemma_total(&x, &last);
        let q = placed(t, x);
        assert forall|i: int, j: int| #![trigger p[i], p[j]] 0 <= i < j < p.len() implies p[i].le(
            &p[j],
        ) by {
            if j < q.len() {
                assert(q[i].le(&q[j]));
            } else {
                assert(q.contains(q[i]));
                if q[i] != x {
                    let k = choose|k: int| 0 <= k < t.len() && t[k] == q[i];
                    assert(s[k].le(&s[s.len() - 1]));
                }
            }
        }
        assert forall|y: T| #![trigger p.contains(y)] p.contains(y) implies s.contains(y) || y
            == x by {
            let i = choose|i: int| 0 <= i < p.len() && p[i] == y;
            if i < q.len() {
                assert(q.contains(y));
                if y != x {
                    let k = choose|k: int| 0 <= k < t.len() && t[k] == y;
                    assert(s[k] == y);
                }
            } else {
                assert(s[s.len() - 1] == y);
            }
        }
        assert(t.push(last) =~= s);
        assert(t.to_multiset().insert(x).insert(last) =~= t.to_multiset().insert(last).insert(x));
    }
}

/// In a dictionary the first letter that differs decides, and of two words of which one begins
/// with the other the shorter one comes first.
pub proof fn lemma_first_difference_decides(
    a: Seq<char>,
    x: char,
    b: Seq<char>,
    y: char,
    c: Seq<char>,
)
    ensures
        x != y ==> text_le(a + seq![x] + b, a + seq![y] + c) == (x < y),
        text_le(a, a + b),
        b.len() > 0 ==> !text_le(a + b, a),
    decreases a.len(),
{
    let (l, r) = (a + seq![x] + b, a + seq![y] + c);
    if a.len() > 0 {
        let t = a.skip(1);
        lemma_first_difference_decides(t, x, b, y, c);
        assert(l.skip(1) =~= t + seq![x] + b);
        assert(r.skip(1) =~= t + seq![y] + c);
        assert((a + b).skip(1) =~= t + b);
    }
}

} // verus!

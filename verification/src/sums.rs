//! Sums over sequences, and what does not change them.

use vstd::prelude::*;

verus! {

/// The sum of a measure over all the values.
pub open spec fn sum_of<A>(s: Seq<A>, f: spec_fn(A) -> int) -> int
    decreases s.len(),
{
    if s.len() == 0 {
        0
    } else {
        sum_of(s.drop_last(), f) + f(s.last())
    }
}

/// How many of the values have the property.
pub open spec fn count_of<A>(s: Seq<A>, p: spec_fn(A) -> bool) -> int {
    sum_of(
        s,
        |x: A|
            if p(x) {
                1
            } else {
                0
            },
    )
}

pub proof fn sum_of_push<A>(s: Seq<A>, x: A, f: spec_fn(A) -> int)
    ensures
        sum_of(s.push(x), f) == sum_of(s, f) + f(x),
{
    assert(s.push(x).drop_last() =~= s);
}

pub proof fn sum_of_parts<A>(a: Seq<A>, b: Seq<A>, f: spec_fn(A) -> int)
    ensures
        sum_of(a + b, f) == sum_of(a, f) + sum_of(b, f),
    decreases b.len(),
{
    if b.len() == 0 {
        assert(a + b =~= a);
    } else {
        sum_of_parts(a, b.drop_last(), f);
        assert((a + b).drop_last() =~= a + b.drop_last());
    }
}

proof fn sum_without<A>(s: Seq<A>, j: int, f: spec_fn(A) -> int)
    requires
        0 <= j < s.len(),
    ensures
        sum_of(s, f) == sum_of(s.remove(j), f) + f(s[j]),
    decreases s.len(),
{
    if j == s.len() - 1 {
        assert(s.remove(j) =~= s.drop_last());
    } else {
        sum_without(s.drop_last(), j, f);
        assert(s.remove(j).drop_last() =~= s.drop_last().remove(j));
        assert(s.remove(j).last() == s.last());
    }
}

/// A sum does not depend on the order of the values.
pub proof fn sum_ignores_order<A>(s: Seq<A>, t: Seq<A>, f: spec_fn(A) -> int)
    requires
        s.to_multiset() == t.to_multiset(),
    ensures
        sum_of(s, f) == sum_of(t, f),
    decreases s.len(),
{
    s.to_multiset_ensures();
    t.to_multiset_ensures();
    if s.len() > 0 {
        let x = s.last();
        let front = s.drop_last();
        assert(s.contains(x));
        assert(t.to_multiset().count(x) > 0);
        let j = choose|j: int| 0 <= j < t.len() && t[j] == x;
        sum_without(t, j, f);
        assert(front =~= s.remove(s.len() - 1));
        sum_ignores_order(front, t.remove(j), f);
    }
}

/// A count lies between none and all, and two that complete each other are all.
pub proof fn counts_complete_each_other<A>(
    s: Seq<A>,
    p: spec_fn(A) -> bool,
    q: spec_fn(A) -> bool,
)
    requires
        forall|x: A| #[trigger] p(x) != q(x),
    ensures
        0 <= count_of(s, p) <= s.len(),
        count_of(s, p) + count_of(s, q) == s.len(),
    decreases s.len(),
{
    if s.len() > 0 {
        counts_complete_each_other(s.drop_last(), p, q);
        assert(p(s.last()) != q(s.last()));
    }
}

/// The sums of two measures add up to the sum of both.
pub proof fn sums_add_up<A>(
    s: Seq<A>,
    f: spec_fn(A) -> int,
    g: spec_fn(A) -> int,
    h: spec_fn(A) -> int,
)
    requires
        forall|x: A| #[trigger] h(x) == f(x) + g(x),
    ensures
        sum_of(s, h) == sum_of(s, f) + sum_of(s, g),
    decreases s.len(),
{
    if s.len() > 0 {
        sums_add_up(s.drop_last(), f, g, h);
        assert(h(s.last()) == f(s.last()) + g(s.last()));
    }
}

/// Equal measures have equal sums.
pub proof fn equal_measures<A>(s: Seq<A>, f: spec_fn(A) -> int, g: spec_fn(A) -> int)
    requires
        forall|i: int| 0 <= i < s.len() ==> f(#[trigger] s[i]) == g(s[i]),
    ensures
        sum_of(s, f) == sum_of(s, g),
    decreases s.len(),
{
    if s.len() > 0 {
        let front = s.drop_last();
        assert forall|i: int| 0 <= i < front.len() implies f(#[trigger] front[i]) == g(
            front[i],
        ) by {
            assert(front[i] == s[i]);
        }
        equal_measures(front, f, g);
        assert(f(s[s.len() - 1]) == g(s[s.len() - 1]));
    }
}

/// A count lies between none and all.
pub proof fn counts_fit<A>(s: Seq<A>, p: spec_fn(A) -> bool)
    ensures
        0 <= count_of(s, p) <= s.len(),
    decreases s.len(),
{
    if s.len() > 0 {
        counts_fit(s.drop_last(), p);
    }
}

/// Where none is counted, none has the property.
pub proof fn none_is_counted<A>(s: Seq<A>, p: spec_fn(A) -> bool)
    requires
        count_of(s, p) == 0,
    ensures
        forall|i: int| 0 <= i < s.len() ==> !p(#[trigger] s[i]),
    decreases s.len(),
{
    if s.len() > 0 {
        counts_fit(s.drop_last(), p);
        none_is_counted(s.drop_last(), p);
        assert forall|i: int| 0 <= i < s.len() implies !p(#[trigger] s[i]) by {
            if i < s.len() - 1 {
                assert(s.drop_last()[i] == s[i]);
            }
        }
    }
}

/// Where some are counted, one has the property.
pub proof fn some_is_counted<A>(s: Seq<A>, p: spec_fn(A) -> bool)
    requires
        count_of(s, p) != 0,
    ensures
        exists|i: int| 0 <= i < s.len() && p(#[trigger] s[i]),
    decreases s.len(),
{
    if s.len() > 0 {
        if p(s.last()) {
            assert(p(s[s.len() - 1]));
        } else {
            let front = s.drop_last();
            some_is_counted(front, p);
            let i = choose|i: int| 0 <= i < front.len() && p(#[trigger] front[i]);
            assert(s[i] == front[i]);
        }
    }
}

} // verus!

//! Stable ordering of records by a total preorder on their keys.

use vstd::prelude::*;
use vstd::slice::slice_to_vec;

verus! {

/// A record type with a total preorder, given by the key it is sorted on.
/// Records that precede each other are tied.
pub trait Keyed: Copy {
    /// Whether this record may stand before `other` in sorted order.
    spec fn before(self, other: Self) -> bool;

    proof fn before_is_total(a: Self, b: Self)
        ensures
            a.before(b) || b.before(a),
    ;

    proof fn before_is_transitive(a: Self, b: Self, c: Self)
        requires
            a.before(b),
            b.before(c),
        ensures
            a.before(c),
    ;

    fn comes_before(&self, other: &Self) -> (r: bool)
        ensures
            r == self.before(*other),
    ;
}

/// Whether two records have the same key.
pub open spec fn tied<T: Keyed>(a: T, b: T) -> bool {
    a.before(b) && b.before(a)
}

/// Whether the sequence is sorted by key.
pub open spec fn sorted<T: Keyed>(s: Seq<T>) -> bool {
    forall|i: int, j: int| 0 <= i <= j < s.len() ==> #[trigger] s[i].before(#[trigger] s[j])
}

/// The records of `s` with the key of `k`, in the order of `s`.
pub open spec fn class<T: Keyed>(s: Seq<T>, k: T) -> Seq<T> {
    s.filter(|x: T| tied(x, k))
}

/// Whether `t` is `s` sorted by key with tied records left in their order.
pub open spec fn arranges<T: Keyed>(s: Seq<T>, t: Seq<T>) -> bool {
    &&& sorted(t)
    &&& t.to_multiset() == s.to_multiset()
    &&& forall|k: T| #[trigger] class(t, k) == class(s, k)
}

/// The stable arrangement of `s` by key.
pub open spec fn arranged<T: Keyed>(s: Seq<T>) -> Seq<T> {
    choose|t: Seq<T>| arranges(s, t)
}

proof fn class_of_empty<T: Keyed>(k: T)
    ensures
        class(Seq::<T>::empty(), k) == Seq::<T>::empty(),
{
    reveal(Seq::filter);
}

proof fn class_push<T: Keyed>(s: Seq<T>, x: T, k: T)
    ensures
        class(s.push(x), k) == if tied(x, k) {
            class(s, k).push(x)
        } else {
            class(s, k)
        },
{
    reveal(Seq::filter);
    assert(s.push(x).drop_last() =~= s);
}

proof fn class_add<T: Keyed>(a: Seq<T>, b: Seq<T>, k: T)
    ensures
        class(a + b, k) == class(a, k) + class(b, k),
{
    Seq::filter_distributes_over_add(a, b, |x: T| tied(x, k));
}

proof fn class_head<T: Keyed>(s: Seq<T>, k: T)
    requires
        s.len() > 0,
    ensures
        class(s, k) == if tied(s[0], k) {
            seq![s[0]] + class(s.drop_first(), k)
        } else {
            class(s.drop_first(), k)
        },
{
    let one = seq![s[0]];
    assert(s =~= one + s.drop_first());
    class_add(one, s.drop_first(), k);
    assert(one =~= Seq::<T>::empty().push(s[0]));
    class_push(Seq::<T>::empty(), s[0], k);
    class_of_empty::<T>(k);
    assert(Seq::<T>::empty() + class(s.drop_first(), k) =~= class(s.drop_first(), k));
    assert(Seq::<T>::empty().push(s[0]) =~= one);
}

/// A class is empty where every record of the sequence stands strictly after it.
proof fn class_below<T: Keyed>(s: Seq<T>, k: T)
    requires
        forall|i: int| 0 <= i < s.len() ==> !(#[trigger] s[i].before(k)),
    ensures
        class(s, k) == Seq::<T>::empty(),
    decreases s.len(),
{
    class_of_empty::<T>(k);
    if s.len() == 0 {
        assert(s =~= Seq::<T>::empty());
    } else {
        class_head(s, k);
        assert(!s[0].before(k));
        assert forall|i: int| 0 <= i < s.drop_first().len() implies !(#[trigger] s.drop_first()[i].before(k)) by {
            assert(s.drop_first()[i] == s[i + 1]);
        }
        class_below(s.drop_first(), k);
    }
}

/// A tied record of the sequence is in its class.
proof fn class_contains<T: Keyed>(s: Seq<T>, i: int, k: T)
    requires
        0 <= i < s.len(),
        tied(s[i], k),
    ensures
        class(s, k).contains(s[i]),
{
    s.lemma_filter_contains(|x: T| tied(x, k), i);
}

proof fn class_member<T: Keyed>(s: Seq<T>, k: T, x: T)
    requires
        class(s, k).contains(x),
    ensures
        tied(x, k),
        s.contains(x),
{
    let pred = |x: T| tied(x, k);
    let j = choose|j: int| 0 <= j < class(s, k).len() && class(s, k)[j] == x;
    s.lemma_filter_pred(pred, j);
    s.lemma_filter_contains_rev(pred, x);
}

proof fn before_self<T: Keyed>(a: T)
    ensures
        a.before(a),
{
    T::before_is_total(a, a);
}

/// Two stable arrangements of one sequence are the same sequence.
pub proof fn arrangement_is_unique<T: Keyed>(s: Seq<T>, t: Seq<T>, u: Seq<T>)
    requires
        arranges(s, t),
        arranges(s, u),
    ensures
        t == u,
{
    assert forall|k: T| #[trigger] class(t, k) == class(u, k) by {
        assert(class(t, k) == class(s, k));
    }
    t.to_multiset_ensures();
    u.to_multiset_ensures();
    assert(t.len() == u.len());
    sorted_with_equal_classes(t, u);
}

proof fn sorted_with_equal_classes<T: Keyed>(t: Seq<T>, u: Seq<T>)
    requires
        sorted(t),
        sorted(u),
        t.len() == u.len(),
        forall|k: T| #[trigger] class(t, k) == class(u, k),
    ensures
        t == u,
    decreases t.len(),
{
    if t.len() == 0 {
        assert(t =~= u);
    } else {
        let a = t[0];
        let b = u[0];
        before_self(a);
        before_self(b);
        // Some record of `u` is tied with `a`, and `b` stands before it.
        class_contains(t, 0, a);
        assert(class(t, a) == class(u, a));
        class_member(u, a, a);
        let i = choose|i: int| 0 <= i < u.len() && u[i] == a;
        assert(u[0].before(u[i]));
        class_contains(u, 0, b);
        assert(class(t, b) == class(u, b));
        class_member(t, b, b);
        let j = choose|j: int| 0 <= j < t.len() && t[j] == b;
        assert(t[0].before(t[j]));
        assert(tied(a, b));
        class_head(t, a);
        class_head(u, a);
        assert(class(t, a)[0] == a);
        assert(class(u, a)[0] == b);
        assert(a == b);
        let t1 = t.drop_first();
        let u1 = u.drop_first();
        assert forall|k: T| #[trigger] class(t1, k) == class(u1, k) by {
            class_head(t, k);
            class_head(u, k);
            assert(class(t, k) == class(u, k));
            if tied(a, k) {
                assert(class(t1, k) =~= class(t, k).drop_first());
                assert(class(u1, k) =~= class(u, k).drop_first());
            }
        }
        assert(sorted(t1)) by {
            assert forall|i: int, j: int| 0 <= i <= j < t1.len() implies #[trigger] t1[i].before(
                #[trigger] t1[j],
            ) by {
                assert(t[i + 1].before(t[j + 1]));
            }
        }
        assert(sorted(u1)) by {
            assert forall|i: int, j: int| 0 <= i <= j < u1.len() implies #[trigger] u1[i].before(
                #[trigger] u1[j],
            ) by {
                assert(u[i + 1].before(u[j + 1]));
            }
        }
        sorted_with_equal_classes(t1, u1);
        assert(t =~= seq![a] + t1);
        assert(u =~= seq![b] + u1);
    }
}

/// A stable arrangement is the arrangement.
pub proof fn arrangement_is_arranged<T: Keyed>(s: Seq<T>, t: Seq<T>)
    requires
        arranges(s, t),
    ensures
        t == arranged(s),
{
    arrangement_is_unique(s, t, arranged(s));
}

/// The place behind every record of a sorted sequence that may stand before `x`.
proof fn insertion_point<T: Keyed>(t: Seq<T>, x: T) -> (p: int)
    requires
        sorted(t),
    ensures
        0 <= p <= t.len(),
        forall|i: int| 0 <= i < p ==> #[trigger] t[i].before(x),
        forall|i: int| p <= i < t.len() ==> !(#[trigger] t[i].before(x)),
    decreases t.len(),
{
    if t.len() == 0 {
        0
    } else if t.last().before(x) {
        assert forall|i: int| 0 <= i < t.len() implies #[trigger] t[i].before(x) by {
            assert(t[i].before(t[t.len() - 1]));
            T::before_is_transitive(t[i], t.last(), x);
        }
        t.len() as int
    } else {
        let front = t.drop_last();
        assert(sorted(front)) by {
            assert forall|i: int, j: int| 0 <= i <= j < front.len() implies
                #[trigger] front[i].before(#[trigger] front[j]) by {
                assert(t[i].before(t[j]));
            }
        }
        let p = insertion_point(front, x);
        assert forall|i: int| 0 <= i < p implies #[trigger] t[i].before(x) by {
            assert(front[i].before(x));
        }
        assert forall|i: int| p <= i < t.len() implies !(#[trigger] t[i].before(x)) by {
            if i < front.len() {
                assert(!front[i].before(x));
            }
        }
        p
    }
}

/// Every sequence has a stable arrangement.
pub proof fn arrangement_exists<T: Keyed>(s: Seq<T>)
    ensures
        arranges(s, arranged(s)),
    decreases s.len(),
{
    if s.len() == 0 {
        assert(arranges(s, s));
    } else {
        let front = s.drop_last();
        let x = s.last();
        arrangement_exists(front);
        let t = arranged(front);
        let p = insertion_point(t, x);
        let low = t.take(p);
        let high = t.skip(p);
        let u = low.push(x) + high;
        assert(t =~= low + high);
        assert(s =~= front.push(x));
        assert(sorted(u)) by {
            assert forall|i: int, j: int| 0 <= i <= j < u.len() implies #[trigger] u[i].before(
                #[trigger] u[j],
            ) by {
                let a = if i < p {
                    i
                } else {
                    i - 1
                };
                let b = if j < p {
                    j
                } else {
                    j - 1
                };
                if i == p && j == p {
                    before_self(x);
                } else if i == p {
                    assert(!t[b].before(x));
                    T::before_is_total(t[b], x);
                } else if j == p {
                    assert(t[a].before(x));
                } else {
                    assert(t[a].before(t[b]));
                }
            }
        }
        assert(u.to_multiset() =~= s.to_multiset()) by {
            broadcast use vstd::seq_lib::lemma_multiset_commutative;

            assert(low.push(x) =~= low + seq![x]);
            assert(front.push(x) =~= front + seq![x]);
            assert((low + high).to_multiset() == t.to_multiset());
        }
        assert forall|k: T| #[trigger] class(u, k) == class(s, k) by {
            class_add(low.push(x), high, k);
            class_push(low, x, k);
            class_add(low, high, k);
            class_push(front, x, k);
            assert(class(t, k) == class(front, k));
            if tied(x, k) {
                assert forall|i: int| 0 <= i < high.len() implies !(#[trigger] high[i].before(
                    k,
                )) by {
                    assert(!t[p + i].before(x));
                    if high[i].before(k) {
                        T::before_is_transitive(high[i], k, x);
                    }
                }
                class_below(high, k);
                assert(class(low, k).push(x) + class(high, k) =~= class(low, k).push(x));
                assert(class(low, k) + class(high, k) =~= class(low, k));
            }
        }
        assert(arranges(s, u));
    }
}

/// Whether `t` has the records of `s`, with tied records left in their order.
spec fn reorders<T: Keyed>(s: Seq<T>, t: Seq<T>) -> bool {
    &&& t.to_multiset() == s.to_multiset()
    &&& forall|k: T| #[trigger] class(t, k) == class(s, k)
}

proof fn reordering_of_parts<T: Keyed>(a: Seq<T>, b: Seq<T>, c: Seq<T>, d: Seq<T>)
    requires
        reorders(a, c),
        reorders(b, d),
    ensures
        reorders(a + b, c + d),
{
    assert forall|k: T| #[trigger] class(c + d, k) == class(a + b, k) by {
        class_add(a, b, k);
        class_add(c, d, k);
        assert(class(c, k) == class(a, k));
        assert(class(d, k) == class(b, k));
    }
    broadcast use vstd::seq_lib::lemma_multiset_commutative;

    assert((c + d).to_multiset() =~= (a + b).to_multiset());
}

/// Two runs can change places where all of the second stands strictly before all
/// of the first.
proof fn runs_change_places<T: Keyed>(a: Seq<T>, b: Seq<T>)
    requires
        forall|i: int, j: int|
            0 <= i < a.len() && 0 <= j < b.len() ==> !(#[trigger] a[i].before(b[j])),
    ensures
        reorders(a + b, b + a),
{
    assert forall|k: T| #[trigger] class(b + a, k) == class(a + b, k) by {
        class_add(a, b, k);
        class_add(b, a, k);
        let (x, y) = (class(a, k), class(b, k));
        if x.len() > 0 && y.len() > 0 {
            assert(x.contains(x[0]) && y.contains(y[0]));
            class_member(a, k, x[0]);
            class_member(b, k, y[0]);
            T::before_is_transitive(x[0], k, y[0]);
            let i = choose|i: int| 0 <= i < a.len() && a[i] == x[0];
            let j = choose|j: int| 0 <= j < b.len() && b[j] == y[0];
            assert(!a[i].before(b[j]));
        } else {
            assert(x + y =~= y + x);
        }
    }
    broadcast use vstd::seq_lib::lemma_multiset_commutative;

    assert((b + a).to_multiset() =~= (a + b).to_multiset());
}

/// Two sorted runs, each cut in two, are merged by merging their first parts and
/// their second parts.
proof fn merging_by_parts<T: Keyed>(
    a: Seq<T>,
    b: Seq<T>,
    c: Seq<T>,
    d: Seq<T>,
    first: Seq<T>,
    second: Seq<T>,
)
    requires
        forall|i: int, j: int|
            0 <= i < b.len() && 0 <= j < c.len() ==> !(#[trigger] b[i].before(c[j])),
        reorders(a + c, first),
        reorders(b + d, second),
    ensures
        reorders(a + b + c + d, first + second),
{
    runs_change_places(b, c);
    reordering_of_parts(a, b + c, a, c + b);
    reordering_of_parts(a + (b + c), d, a + (c + b), d);
    reordering_of_parts(a + c, b + d, first, second);
    assert(a + (b + c) + d =~= a + b + c + d);
    assert(a + (c + b) + d =~= (a + c) + (b + d));
}

/// Where all of one run may stand before all of another, so it is with the runs
/// reordered.
proof fn reordering_keeps_apart<T: Keyed>(a: Seq<T>, b: Seq<T>, c: Seq<T>, d: Seq<T>)
    requires
        reorders(a, c),
        reorders(b, d),
        forall|i: int, j: int|
            0 <= i < a.len() && 0 <= j < b.len() ==> #[trigger] a[i].before(b[j]),
    ensures
        c.len() == a.len(),
        d.len() == b.len(),
        forall|i: int, j: int|
            0 <= i < c.len() && 0 <= j < d.len() ==> #[trigger] c[i].before(d[j]),
{
    a.to_multiset_ensures();
    b.to_multiset_ensures();
    c.to_multiset_ensures();
    d.to_multiset_ensures();
    assert forall|i: int, j: int| 0 <= i < c.len() && 0 <= j < d.len() implies #[trigger] c[i].before(
        d[j],
    ) by {
        assert(c.contains(c[i]) && d.contains(d[j]));
        permuted_contains(c, a, c[i]);
        permuted_contains(d, b, d[j]);
        let m = choose|m: int| 0 <= m < a.len() && a[m] == c[i];
        let n = choose|n: int| 0 <= n < b.len() && b[n] == d[j];
        assert(a[m].before(b[n]));
    }
}

/// Whether the records from one place to another are sorted by key.
spec fn sorted_between<T: Keyed>(s: Seq<T>, from: int, to: int) -> bool {
    forall|i: int, j: int| from <= i <= j < to ==> #[trigger] s[i].before(#[trigger] s[j])
}

/// Whether the sequences differ at most from one place to another.
spec fn same_around<T>(s: Seq<T>, t: Seq<T>, from: int, to: int) -> bool {
    &&& t.len() == s.len()
    &&& forall|i: int| 0 <= i < s.len() && !(from <= i < to) ==> #[trigger] t[i] == s[i]
}

fn reverse<T: Keyed>(records: &mut [T], from: usize, to: usize)
    requires
        from <= to <= old(records)@.len(),
    ensures
        same_around(old(records)@, final(records)@, from as int, to as int),
        forall|i: int|
            from <= i < to ==> #[trigger] final(records)@[i] == old(records)@[from + to - 1 - i],
{
    let mut i: usize = from;
    let mut j: usize = to;
    let ghost s = records@;
    while j - i > 1
        invariant
            from <= i <= j <= to <= s.len(),
            i - from == to - j,
            records@.len() == s.len(),
            forall|n: int|
                0 <= n < s.len() && !(from <= n < i) && !(j <= n < to) ==> #[trigger] records@[n]
                    == s[n],
            forall|n: int|
                from <= n < i || j <= n < to ==> #[trigger] records@[n] == s[from + to - 1 - n],
        decreases j - i,
    {
        let x = records[i];
        let y = records[j - 1];
        records[i] = y;
        records[j - 1] = x;
        i = i + 1;
        j = j - 1;
    }
}

/// Lets two runs that touch change places.
fn rotate<T: Keyed>(records: &mut [T], from: usize, mid: usize, to: usize)
    requires
        from <= mid <= to <= old(records)@.len(),
    ensures
        same_around(old(records)@, final(records)@, from as int, to as int),
        forall|i: int|
            from <= i < from + (to - mid) ==> #[trigger] final(records)@[i] == old(records)@[mid + (
            i - from)],
        forall|i: int|
            from + (to - mid) <= i < to ==> #[trigger] final(records)@[i] == old(records)@[i - (to
                - mid)],
{
    reverse(records, from, mid);
    reverse(records, mid, to);
    reverse(records, from, to);
}

/// The first place whose record the given one may stand before.
fn first_not_below<T: Keyed>(records: &[T], from: usize, to: usize, x: &T) -> (p: usize)
    requires
        from <= to <= records@.len(),
        sorted_between(records@, from as int, to as int),
    ensures
        from <= p <= to,
        forall|i: int| from <= i < p ==> !(#[trigger] x.before(records@[i])),
        forall|i: int| p <= i < to ==> #[trigger] x.before(records@[i]),
{
    let mut low: usize = from;
    let mut high: usize = to;
    while low < high
        invariant
            from <= low <= high <= to <= records@.len(),
            sorted_between(records@, from as int, to as int),
            forall|i: int| from <= i < low ==> !(#[trigger] x.before(records@[i])),
            forall|i: int| high <= i < to ==> #[trigger] x.before(records@[i]),
        decreases high - low,
    {
        let middle: usize = low + (high - low) / 2;
        let ghost m = records@[middle as int];
        if x.comes_before(&records[middle]) {
            assert forall|i: int| middle <= i < to implies #[trigger] x.before(records@[i]) by {
                assert(m.before(records@[i]));
                T::before_is_transitive(*x, m, records@[i]);
            }
            high = middle;
        } else {
            assert forall|i: int| from <= i <= middle implies !(#[trigger] x.before(
                records@[i],
            )) by {
                assert(records@[i].before(m));
                if x.before(records@[i]) {
                    T::before_is_transitive(*x, records@[i], m);
                }
            }
            low = middle + 1;
        }
    }
    low
}

/// The first place whose record may not stand before the given one.
fn first_above<T: Keyed>(records: &[T], from: usize, to: usize, x: &T) -> (p: usize)
    requires
        from <= to <= records@.len(),
        sorted_between(records@, from as int, to as int),
    ensures
        from <= p <= to,
        forall|i: int| from <= i < p ==> #[trigger] records@[i].before(*x),
        forall|i: int| p <= i < to ==> !(#[trigger] records@[i].before(*x)),
{
    let mut low: usize = from;
    let mut high: usize = to;
    while low < high
        invariant
            from <= low <= high <= to <= records@.len(),
            sorted_between(records@, from as int, to as int),
            forall|i: int| from <= i < low ==> #[trigger] records@[i].before(*x),
            forall|i: int| high <= i < to ==> !(#[trigger] records@[i].before(*x)),
        decreases high - low,
    {
        let middle: usize = low + (high - low) / 2;
        let ghost m = records@[middle as int];
        if records[middle].comes_before(x) {
            assert forall|i: int| from <= i <= middle implies #[trigger] records@[i].before(*x) by {
                assert(records@[i].before(m));
                T::before_is_transitive(records@[i], m, *x);
            }
            low = middle + 1;
        } else {
            assert forall|i: int| middle <= i < to implies !(#[trigger] records@[i].before(*x)) by {
                assert(m.before(records@[i]));
                if records@[i].before(*x) {
                    T::before_is_transitive(m, records@[i], *x);
                }
            }
            high = middle;
        }
    }
    low
}

/// Where two sorted runs that touch are cut: what the first has behind its cut
/// stands strictly after what the second has in front of its own.
fn cut<T: Keyed>(records: &[T], from: usize, mid: usize, to: usize) -> (cuts: (usize, usize))
    requires
        from < mid < to <= records@.len(),
        to - from > 2,
        sorted_between(records@, from as int, mid as int),
        sorted_between(records@, mid as int, to as int),
    ensures
        from <= cuts.0 <= mid <= cuts.1 <= to,
        from < cuts.0 + cuts.1 - mid < to,
        forall|i: int, j: int|
            cuts.0 <= i < mid && mid <= j < cuts.1 ==> !(#[trigger] records@[i].before(
                #[trigger] records@[j],
            )),
        forall|i: int, j: int|
            from <= i < cuts.0 && cuts.1 <= j < to ==> #[trigger] records@[i].before(
                #[trigger] records@[j],
            ),
{
    if mid - from >= to - mid {
        let first: usize = from + (mid - from) / 2;
        let x = records[first];
        let second: usize = first_not_below(records, mid, to, &x);
        proof {
            let s = records@;
            assert forall|i: int, j: int| first <= i < mid && mid <= j < second implies !(
            #[trigger] s[i].before(#[trigger] s[j])) by {
                assert(x.before(s[i]));
                assert(!x.before(s[j]));
                if s[i].before(s[j]) {
                    T::before_is_transitive(x, s[i], s[j]);
                }
            }
            assert forall|i: int, j: int| from <= i < first && second <= j < to implies
                #[trigger] s[i].before(#[trigger] s[j]) by {
                assert(s[i].before(s[first as int]));
                assert(x.before(s[j]));
                T::before_is_transitive(s[i], x, s[j]);
            }
        }
        (first, second)
    } else {
        let second: usize = mid + (to - mid) / 2;
        let x = records[second];
        let first: usize = first_above(records, from, mid, &x);
        proof {
            let s = records@;
            assert forall|i: int, j: int| first <= i < mid && mid <= j < second implies !(
            #[trigger] s[i].before(#[trigger] s[j])) by {
                assert(s[j].before(s[second as int]));
                assert(!s[i].before(x));
                if s[i].before(s[j]) {
                    T::before_is_transitive(s[i], s[j], x);
                }
            }
            assert forall|i: int, j: int| from <= i < first && second <= j < to implies
                #[trigger] s[i].before(#[trigger] s[j]) by {
                assert(s[second as int].before(s[j]));
                assert(s[i].before(x));
                T::before_is_transitive(s[i], x, s[j]);
            }
        }
        (first, second)
    }
}

/// Two sorted runs that touch are sorted as a whole where the last record of the
/// first may stand before the first record of the second.
proof fn runs_in_order<T: Keyed>(s: Seq<T>, from: int, mid: int, to: int)
    requires
        0 <= from < mid < to <= s.len(),
        sorted_between(s, from, mid),
        sorted_between(s, mid, to),
        s[mid - 1].before(s[mid]),
    ensures
        sorted_between(s, from, to),
{
    assert forall|i: int, j: int| from <= i <= j < to implies #[trigger] s[i].before(
        #[trigger] s[j],
    ) by {
        if i < mid <= j {
            assert(s[i].before(s[mid - 1]));
            assert(s[mid].before(s[j]));
            T::before_is_transitive(s[i], s[mid - 1], s[mid]);
            T::before_is_transitive(s[i], s[mid], s[j]);
        }
    }
}

/// Merges two sorted runs that touch, in their own room.
fn merge<T: Keyed>(records: &mut [T], from: usize, mid: usize, to: usize)
    requires
        from <= mid <= to <= old(records)@.len(),
        sorted_between(old(records)@, from as int, mid as int),
        sorted_between(old(records)@, mid as int, to as int),
    ensures
        same_around(old(records)@, final(records)@, from as int, to as int),
        sorted_between(final(records)@, from as int, to as int),
        reorders(
            old(records)@.subrange(from as int, to as int),
            final(records)@.subrange(from as int, to as int),
        ),
    decreases to - from,
{
    let ghost s = records@;
    if from == mid || mid == to {
        return;
    }
    if records[mid - 1].comes_before(&records[mid]) {
        proof {
            runs_in_order(s, from as int, mid as int, to as int);
        }
        return;
    }
    if to - from == 2 {
        rotate(records, from, mid, to);
        proof {
            let (a, b) = (seq![s[from as int]], seq![s[mid as int]]);
            runs_change_places(a, b);
            assert(s.subrange(from as int, to as int) =~= a + b);
            assert(records@.subrange(from as int, to as int) =~= b + a);
            T::before_is_total(a[0], b[0]);
            before_self(a[0]);
            before_self(b[0]);
        }
        return;
    }
    let (first, second) = cut(records, from, mid, to);
    let middle: usize = first + (second - mid);
    rotate(records, first, mid, second);
    let ghost t = records@;
    proof {
        assert forall|i: int, j: int| from <= i < middle && middle <= j < to implies
            #[trigger] t[i].before(#[trigger] t[j]) by {
            let x = if i < first { i } else { mid + (i - first) };
            let y = if j < second { j - (second - mid) } else { j };
            assert(t[i] == s[x] && t[j] == s[y]);
            if i >= first && j < second {
                assert(!s[y].before(s[x]));
                T::before_is_total(s[x], s[y]);
            }
        }
        assert forall|i: int, j: int| first <= i <= j < middle implies #[trigger] t[i].before(
            #[trigger] t[j],
        ) by {
            assert(s[mid + (i - first)].before(s[mid + (j - first)]));
        }
        assert forall|i: int, j: int| middle <= i <= j < second implies #[trigger] t[i].before(
            #[trigger] t[j],
        ) by {
            assert(s[i - (second - mid)].before(s[j - (second - mid)]));
        }
    }
    merge(records, from, first, middle);
    let ghost u = records@;
    merge(records, middle, second, to);
    proof {
        let v = records@;
        let (a, b) = (s.subrange(from as int, first as int), s.subrange(first as int, mid as int));
        let (c, d) = (s.subrange(mid as int, second as int), s.subrange(second as int, to as int));
        let (front, back) = (
            v.subrange(from as int, middle as int),
            v.subrange(middle as int, to as int),
        );
        assert(t.subrange(from as int, middle as int) =~= a + c);
        assert(t.subrange(middle as int, to as int) =~= b + d);
        assert(u.subrange(from as int, middle as int) =~= front);
        assert(u.subrange(middle as int, to as int) =~= b + d);
        merging_by_parts(a, b, c, d, front, back);
        assert(s.subrange(from as int, to as int) =~= a + b + c + d);
        assert(v.subrange(from as int, to as int) =~= front + back);
        assert forall|i: int, j: int| 0 <= i < (a + c).len() && 0 <= j < (b + d).len() implies
            #[trigger] (a + c)[i].before((b + d)[j]) by {
            assert(t[from + i] == (a + c)[i] && t[middle + j] == (b + d)[j]);
            assert(t[from + i].before(t[middle + j]));
        }
        reordering_keeps_apart(a + c, b + d, front, back);
        assert forall|i: int, j: int| from <= i <= j < to implies #[trigger] v[i].before(
            #[trigger] v[j],
        ) by {
            if i < middle <= j {
                assert(front[i - from].before(back[j - middle]));
            } else if j < middle {
                assert(v[i] == u[i] && v[j] == u[j]);
                assert(u[i].before(u[j]));
            }
        }
    }
}

fn arrange_between<T: Keyed>(records: &mut [T], from: usize, to: usize)
    requires
        from <= to <= old(records)@.len(),
    ensures
        same_around(old(records)@, final(records)@, from as int, to as int),
        sorted_between(final(records)@, from as int, to as int),
        reorders(
            old(records)@.subrange(from as int, to as int),
            final(records)@.subrange(from as int, to as int),
        ),
    decreases to - from,
{
    let ghost s = records@;
    if to - from <= 1 {
        proof {
            if from < to {
                before_self(s[from as int]);
            }
        }
        return;
    }
    let mid: usize = from + (to - from) / 2;
    arrange_between(records, from, mid);
    let ghost t = records@;
    arrange_between(records, mid, to);
    let ghost u = records@;
    proof {
        let (a, b) = (s.subrange(from as int, mid as int), s.subrange(mid as int, to as int));
        let (c, d) = (u.subrange(from as int, mid as int), u.subrange(mid as int, to as int));
        assert(t.subrange(from as int, mid as int) =~= c);
        assert(t.subrange(mid as int, to as int) =~= b);
        reordering_of_parts(a, b, c, d);
        assert(s.subrange(from as int, to as int) =~= a + b);
        assert(u.subrange(from as int, to as int) =~= c + d);
        assert forall|i: int, j: int| from <= i <= j < mid implies #[trigger] u[i].before(
            #[trigger] u[j],
        ) by {
            assert(u[i] == t[i] && u[j] == t[j]);
            assert(t[i].before(t[j]));
        }
    }
    merge(records, from, mid, to);
}

/// Sorts the records by key in their own room, with tied records left in their
/// order.
pub fn arrange_in_place<T: Keyed>(records: &mut [T])
    ensures
        final(records)@ == arranged(old(records)@),
        arranges(old(records)@, final(records)@),
{
    let length: usize = records.len();
    arrange_between(records, 0, length);
    proof {
        let (s, t) = (old(records)@, records@);
        assert(s.subrange(0, s.len() as int) =~= s);
        assert(t.subrange(0, t.len() as int) =~= t);
        assert(arranges(s, t));
        arrangement_is_arranged(s, t);
    }
}

/// The records sorted by key, with tied records left in their order.
pub fn arrange<T: Keyed>(records: Vec<T>) -> (out: Vec<T>)
    ensures
        out@ == arranged(records@),
        arranges(records@, out@),
{
    let mut out = records;
    arrange_in_place(out.as_mut_slice());
    out
}

/// A copy of the records sorted by key, with tied records left in their order.
pub fn arranged_copy<T: Keyed>(records: &[T]) -> (out: Vec<T>)
    ensures
        out@ == arranged(records@),
        arranges(records@, out@),
{
    arrange(slice_to_vec(records))
}

/// Whether no two records of the sequence have the same key.
pub open spec fn untied<T: Keyed>(s: Seq<T>) -> bool {
    forall|i: int, j: int| 0 <= i < j < s.len() ==> !tied(#[trigger] s[i], #[trigger] s[j])
}

proof fn untied_class<T: Keyed>(s: Seq<T>, k: T)
    requires
        untied(s),
    ensures
        class(s, k).len() <= 1,
    decreases s.len(),
{
    class_of_empty::<T>(k);
    if s.len() == 0 {
        assert(s =~= Seq::<T>::empty());
    } else {
        let front = s.drop_last();
        untied_class(front, k);
        assert(s =~= front.push(s.last()));
        class_push(front, s.last(), k);
        if tied(s.last(), k) && class(front, k).len() == 1 {
            let x = class(front, k)[0];
            assert(class(front, k).contains(x));
            class_member(front, k, x);
            let i = choose|i: int| 0 <= i < front.len() && front[i] == x;
            T::before_is_transitive(x, k, s.last());
            T::before_is_transitive(s.last(), k, x);
            assert(tied(s[i], s[s.len() - 1]));
        }
    }
}

proof fn permuted_contains<T: Keyed>(a: Seq<T>, b: Seq<T>, x: T)
    requires
        a.to_multiset() == b.to_multiset(),
        a.contains(x),
    ensures
        b.contains(x),
{
    a.to_multiset_ensures();
    b.to_multiset_ensures();
    assert(a.to_multiset().count(x) > 0);
    assert(b.to_multiset().count(x) > 0);
}

proof fn permuted_is_untied<T: Keyed>(a: Seq<T>, b: Seq<T>)
    requires
        untied(a),
        a.to_multiset() == b.to_multiset(),
    ensures
        untied(b),
{
    a.to_multiset_ensures();
    b.to_multiset_ensures();
    assert forall|i: int, j: int| 0 <= i < a.len() && 0 <= j < a.len() && i != j implies a[i]
        != a[j] by {
        before_self(a[i]);
        if i < j {
            assert(!tied(a[i], a[j]));
        } else {
            assert(!tied(a[j], a[i]));
        }
    }
    a.lemma_multiset_has_no_duplicates();
    b.lemma_multiset_has_no_duplicates_conv();
    assert forall|i: int, j: int| 0 <= i < j < b.len() implies !tied(
        #[trigger] b[i],
        #[trigger] b[j],
    ) by {
        assert(b.contains(b[i]) && b.contains(b[j]));
        permuted_contains(b, a, b[i]);
        permuted_contains(b, a, b[j]);
        let p = choose|p: int| 0 <= p < a.len() && a[p] == b[i];
        let q = choose|q: int| 0 <= q < a.len() && a[q] == b[j];
        if p < q {
            assert(!tied(a[p], a[q]));
        } else {
            assert(!tied(a[q], a[p]));
        }
    }
}

/// Where no two records have the same key, their arrangement does not depend
/// on the order in which they come.
pub proof fn arrangement_ignores_order<T: Keyed>(a: Seq<T>, b: Seq<T>)
    requires
        untied(a),
        a.to_multiset() == b.to_multiset(),
    ensures
        arranged(a) == arranged(b),
{
    permuted_is_untied(a, b);
    arrangement_exists(b);
    let t = arranged(b);
    a.to_multiset_ensures();
    b.to_multiset_ensures();
    assert forall|k: T| #[trigger] class(t, k) == class(a, k) by {
        let (x, y) = (class(a, k), class(b, k));
        untied_class(a, k);
        untied_class(b, k);
        if x.len() == 1 {
            assert(x.contains(x[0]));
            class_member(a, k, x[0]);
            permuted_contains(a, b, x[0]);
            let i = choose|i: int| 0 <= i < b.len() && b[i] == x[0];
            class_contains(b, i, k);
        }
        if y.len() == 1 {
            assert(y.contains(y[0]));
            class_member(b, k, y[0]);
            permuted_contains(b, a, y[0]);
            let i = choose|i: int| 0 <= i < a.len() && a[i] == y[0];
            class_contains(a, i, k);
        }
        assert(x =~= y);
    }
    arrangement_is_arranged(a, t);
}

} // verus!

//! Dense numbering of names.

use crate::order::{arranged_copy, sorted, Keyed};
use crate::text::{
    bytes_before, bytes_before_is_strict, bytes_before_is_total, bytes_before_is_transitive,
    bytes_determine_text, is_before, text_is,
};
use vstd::prelude::*;
use vstd::utf8::encode_utf8;

verus! {

/// Whether one name stands before another, by the order of their bytes.
pub open spec fn name_before(a: Seq<char>, b: Seq<char>) -> bool {
    bytes_before(encode_utf8(a), encode_utf8(b))
}

/// A name that is being numbered.
#[derive(Clone, Copy)]
pub struct Name<'a> {
    pub text: &'a str,
}

impl<'a> Keyed for Name<'a> {
    open spec fn before(self, other: Self) -> bool {
        self.text@ == other.text@ || name_before(self.text@, other.text@)
    }

    proof fn before_is_total(a: Self, b: Self) {
        if a.text@ != b.text@ {
            if encode_utf8(a.text@) == encode_utf8(b.text@) {
                bytes_determine_text(a.text@, b.text@);
            }
            bytes_before_is_total(encode_utf8(a.text@), encode_utf8(b.text@));
        }
    }

    proof fn before_is_transitive(a: Self, b: Self, c: Self) {
        if a.text@ != b.text@ && b.text@ != c.text@ {
            bytes_before_is_transitive(
                encode_utf8(a.text@),
                encode_utf8(b.text@),
                encode_utf8(c.text@),
            );
        }
    }

    fn comes_before(&self, other: &Self) -> (r: bool) {
        is_before(self.text.as_bytes(), other.text.as_bytes()) || text_is(self.text, other.text)
    }
}

/// The names as texts.
pub open spec fn texts(names: Seq<Name<'_>>) -> Seq<Seq<char>> {
    names.map_values(|n: Name<'_>| n.text@)
}

/// Whether the texts stand in strictly increasing order.
pub open spec fn increasing(t: Seq<Seq<char>>) -> bool {
    forall|i: int, j: int| 0 <= i < j < t.len() ==> name_before(#[trigger] t[i], #[trigger] t[j])
}

/// Whether `t` lists the values once each, in order.
pub open spec fn lists_once(values: Seq<Seq<char>>, t: Seq<Seq<char>>) -> bool {
    &&& increasing(t)
    &&& t.to_set() == values.to_set()
}

/// The values once each, in order.
pub open spec fn distinct(values: Seq<Seq<char>>) -> Seq<Seq<char>> {
    choose|t: Seq<Seq<char>>| lists_once(values, t)
}

/// How many of the texts in order stand before the text.
proof fn place_among(t: Seq<Seq<char>>, x: Seq<char>) -> (p: int)
    requires
        increasing(t),
        !t.contains(x),
    ensures
        0 <= p <= t.len(),
        forall|i: int| 0 <= i < p ==> name_before(#[trigger] t[i], x),
        forall|i: int| p <= i < t.len() ==> name_before(x, #[trigger] t[i]),
    decreases t.len(),
{
    if t.len() == 0 {
        0
    } else {
        let last = t.last();
        assert(t[t.len() - 1] == last);
        if encode_utf8(last) == encode_utf8(x) {
            bytes_determine_text(last, x);
        }
        bytes_before_is_total(encode_utf8(last), encode_utf8(x));
        if name_before(last, x) {
            assert forall|i: int| 0 <= i < t.len() implies name_before(#[trigger] t[i], x) by {
                if i < t.len() - 1 {
                    assert(name_before(t[i], t[t.len() - 1]));
                    bytes_before_is_transitive(
                        encode_utf8(t[i]),
                        encode_utf8(last),
                        encode_utf8(x),
                    );
                }
            }
            t.len() as int
        } else {
            let front = t.drop_last();
            assert forall|i: int, j: int| 0 <= i < j < front.len() implies name_before(
                #[trigger] front[i],
                #[trigger] front[j],
            ) by {
                assert(name_before(t[i], t[j]));
            }
            if front.contains(x) {
                let i = choose|i: int| 0 <= i < front.len() && front[i] == x;
                assert(t[i] == x);
            }
            let p = place_among(front, x);
            assert forall|i: int| 0 <= i < p implies name_before(#[trigger] t[i], x) by {
                assert(front[i] == t[i]);
            }
            assert forall|i: int| p <= i < t.len() implies name_before(x, #[trigger] t[i]) by {
                if i < front.len() {
                    assert(front[i] == t[i]);
                }
            }
            p
        }
    }
}

/// Any values can be listed once each, in order.
pub proof fn listing_exists(values: Seq<Seq<char>>)
    ensures
        lists_once(values, distinct(values)),
    decreases values.len(),
{
    if values.len() == 0 {
        assert(lists_once(values, values));
    } else {
        let front = values.drop_last();
        let x = values.last();
        listing_exists(front);
        let t = distinct(front);
        assert(values =~= front.push(x));
        assert forall|y: Seq<char>| #[trigger] values.contains(y) <==> t.contains(y) || y == x by {
            contains_push(front, x, y);
            assert(t.contains(y) == t.to_set().contains(y));
            assert(front.contains(y) == front.to_set().contains(y));
        }
        if t.contains(x) {
            assert(t.to_set() =~= values.to_set());
            assert(lists_once(values, t));
        } else {
            let p = place_among(t, x);
            let u = t.insert(p, x);
            assert forall|i: int, j: int| 0 <= i < j < u.len() implies name_before(
                #[trigger] u[i],
                #[trigger] u[j],
            ) by {
                let a = if i < p {
                    i
                } else {
                    i - 1
                };
                let b = if j < p {
                    j
                } else {
                    j - 1
                };
                if i != p && j != p {
                    assert(name_before(t[a], t[b]));
                }
            }
            assert forall|y: Seq<char>| #[trigger] u.contains(y) <==> t.contains(y) || y == x by {
                if t.contains(y) {
                    let i = choose|i: int| 0 <= i < t.len() && t[i] == y;
                    assert(u[if i < p {
                        i
                    } else {
                        i + 1
                    }] == y);
                }
                if u.contains(y) && y != x {
                    let i = choose|i: int| 0 <= i < u.len() && u[i] == y;
                    assert(t[if i < p {
                        i
                    } else {
                        i - 1
                    }] == y);
                }
                assert(u[p] == x);
            }
            assert forall|y: Seq<char>| u.to_set().contains(y) == values.to_set().contains(y) by {
                assert(u.contains(y) <==> values.contains(y));
            }
            assert(u.to_set() =~= values.to_set());
            assert(lists_once(values, u));
        }
    }
}

proof fn increasing_is_determined(t: Seq<Seq<char>>, u: Seq<Seq<char>>)
    requires
        increasing(t),
        increasing(u),
        t.to_set() == u.to_set(),
    ensures
        t == u,
    decreases t.len(),
{
    if t.len() == 0 {
        if u.len() > 0 {
            assert(u.to_set().contains(u[0]));
            assert(t.contains(u[0]));
        }
        assert(t =~= u);
    } else {
        assert(t.to_set().contains(t[0]));
        assert(u.contains(t[0]));
        let j = choose|j: int| 0 <= j < u.len() && u[j] == t[0];
        assert(u.to_set().contains(u[0]));
        assert(t.contains(u[0]));
        let i = choose|i: int| 0 <= i < t.len() && t[i] == u[0];
        if j > 0 && i > 0 {
            assert(name_before(u[0], u[j]));
            assert(name_before(t[0], t[i]));
            bytes_before_is_strict(encode_utf8(t[0]), encode_utf8(u[0]));
        }
        assert(t[0] == u[0]);
        let t1 = t.drop_first();
        let u1 = u.drop_first();
        assert forall|x: Seq<char>| t1.to_set().contains(x) implies u1.to_set().contains(x) by {
            rest_is_shared(t, u, x);
        }
        assert forall|x: Seq<char>| u1.to_set().contains(x) implies t1.to_set().contains(x) by {
            rest_is_shared(u, t, x);
        }
        assert(t1.to_set() =~= u1.to_set());
        assert forall|i: int, j: int| 0 <= i < j < t1.len() implies name_before(
            #[trigger] t1[i],
            #[trigger] t1[j],
        ) by {
            assert(name_before(t[i + 1], t[j + 1]));
        }
        assert forall|i: int, j: int| 0 <= i < j < u1.len() implies name_before(
            #[trigger] u1[i],
            #[trigger] u1[j],
        ) by {
            assert(name_before(u[i + 1], u[j + 1]));
        }
        increasing_is_determined(t1, u1);
        assert(t =~= seq![t[0]] + t1);
        assert(u =~= seq![u[0]] + u1);
    }
}

proof fn rest_is_shared(t: Seq<Seq<char>>, u: Seq<Seq<char>>, x: Seq<char>)
    requires
        increasing(t),
        t.len() > 0,
        u.len() > 0,
        t[0] == u[0],
        t.to_set() == u.to_set(),
        t.drop_first().contains(x),
    ensures
        u.drop_first().contains(x),
{
    let i = choose|i: int| 0 <= i < t.drop_first().len() && t.drop_first()[i] == x;
    assert(t[i + 1] == x);
    assert(name_before(t[0], t[i + 1]));
    bytes_before_is_strict(encode_utf8(t[0]), encode_utf8(x));
    assert(t.to_set().contains(x));
    assert(u.contains(x));
    let j = choose|j: int| 0 <= j < u.len() && u[j] == x;
    assert(u.drop_first()[j - 1] == x);
}

/// A list of the values once each, in order, is the list.
pub proof fn listing_is_distinct(values: Seq<Seq<char>>, t: Seq<Seq<char>>)
    requires
        lists_once(values, t),
    ensures
        t == distinct(values),
{
    increasing_is_determined(t, distinct(values));
}

/// Names in strictly increasing order, numbered from one on.
pub struct NameTable<'a> {
    names: Vec<Name<'a>>,
}

impl<'a> NameTable<'a> {
    pub closed spec fn listed(self) -> Seq<Seq<char>> {
        texts(self.names@)
    }

    /// The table of the values.
    pub fn from_values(values: &Vec<Name<'a>>) -> (table: Self)
        ensures
            table.listed() == distinct(texts(values@)),
            lists_once(texts(values@), table.listed()),
    {
        let by_name = arranged_copy(values.as_slice());
        let mut names: Vec<Name<'a>> = Vec::new();
        let mut i: usize = 0;
        while i < by_name.len()
            invariant
                i <= by_name.len(),
                sorted(by_name@),
                increasing(texts(names@)),
                names.len() == 0 <==> i == 0,
                i > 0 ==> names@.last().text@ == by_name@[i - 1].text@,
                forall|x: Seq<char>| #[trigger]
                    texts(names@).contains(x) <==> texts(by_name@.take(i as int)).contains(x),
            decreases by_name.len() - i,
        {
            let name = by_name[i];
            let ghost prev = texts(names@);
            let ghost seen = texts(by_name@.take(i as int));
            let ghost next = texts(by_name@.take(i + 1));
            proof {
                assert(next =~= seen.push(name.text@));
                if i > 0 {
                    assert(by_name@[i - 1].before(by_name@[i as int]));
                }
            }
            let fresh: bool = names.len() == 0 || !text_is(names[names.len() - 1].text, name.text);
            if fresh {
                names.push(name);
                proof {
                    assert(texts(names@) =~= prev.push(name.text@));
                    assert forall|a: int, b: int| 0 <= a < b < texts(names@).len() implies
                        name_before(#[trigger] texts(names@)[a], #[trigger] texts(names@)[b]) by {
                        if b == prev.len() {
                            let last = prev[prev.len() - 1];
                            assert(name_before(last, name.text@));
                            if a < prev.len() - 1 {
                                assert(name_before(prev[a], last));
                                bytes_before_is_transitive(
                                    encode_utf8(prev[a]),
                                    encode_utf8(last),
                                    encode_utf8(name.text@),
                                );
                            }
                        } else {
                            assert(name_before(prev[a], prev[b]));
                        }
                    }
                    assert forall|x: Seq<char>| #[trigger]
                        texts(names@).contains(x) <==> next.contains(x) by {
                        contains_push(prev, name.text@, x);
                        contains_push(seen, name.text@, x);
                    }
                }
            } else {
                proof {
                    assert(prev[prev.len() - 1] == name.text@);
                    assert(prev.contains(name.text@));
                    assert forall|x: Seq<char>| #[trigger]
                        texts(names@).contains(x) <==> next.contains(x) by {
                        contains_push(seen, name.text@, x);
                    }
                }
            }
            i = i + 1;
        }
        let table = NameTable { names };
        proof {
            assert(by_name@.take(i as int) =~= by_name@);
            let t = texts(names@);
            let v = texts(values@);
            values@.to_multiset_ensures();
            by_name@.to_multiset_ensures();
            assert forall|x: Seq<char>| t.to_set().contains(x) <==> v.to_set().contains(x) by {
                permuted_texts(by_name@, values@, x);
                permuted_texts(values@, by_name@, x);
                assert(texts(names@).contains(x) <==> texts(by_name@).contains(x));
            }
            assert(t.to_set() =~= v.to_set());
            listing_is_distinct(v, t);
        }
        table
    }

    /// How many names there are.
    pub fn len(&self) -> (r: usize)
        ensures
            r == self.listed().len(),
    {
        self.names.len()
    }

    /// The number of a name of the table: one more than its position.
    pub fn id(&self, name: &str) -> (r: usize)
        requires
            increasing(self.listed()),
            self.listed().contains(name@),
        ensures
            1 <= r <= self.listed().len(),
            self.listed()[r - 1] == name@,
    {
        let mut low: usize = 0;
        let mut high: usize = self.names.len();
        let ghost t = self.listed();
        let ghost at = choose|at: int| 0 <= at < t.len() && t[at] == name@;
        while high - low > 1
            invariant
                low < high <= self.names.len(),
                t == self.listed(),
                increasing(t),
                low <= at < high,
                t[at] == name@,
            decreases high - low,
        {
            let middle: usize = low + (high - low) / 2;
            let probe = self.names[middle].text;
            proof {
                assert(probe@ == t[middle as int]);
                if middle < at {
                    assert(name_before(t[middle as int], t[at]));
                    bytes_before_is_strict(encode_utf8(t[middle as int]), encode_utf8(t[at]));
                }
                if at < middle {
                    assert(name_before(t[at], t[middle as int]));
                }
                bytes_before_is_strict(encode_utf8(name@), encode_utf8(name@));
            }
            if is_before(name.as_bytes(), probe.as_bytes()) {
                high = middle;
            } else {
                low = middle;
            }
        }
        low + 1
    }

    /// The name with the number.
    pub fn name(&self, id: u64) -> (r: Option<&'a str>)
        ensures
            r is Some <==> 1 <= id <= self.listed().len(),
            r matches Some(text) ==> text@ == self.listed()[id - 1],
    {
        if id == 0 || id > self.names.len() as u64 {
            None
        } else {
            Some(self.names[(id - 1) as usize].text)
        }
    }
}

proof fn contains_push(s: Seq<Seq<char>>, last: Seq<char>, x: Seq<char>)
    ensures
        s.push(last).contains(x) <==> s.contains(x) || x == last,
{
    if s.contains(x) {
        let i = choose|i: int| 0 <= i < s.len() && s[i] == x;
        assert(s.push(last)[i] == x);
    }
    if x == last {
        assert(s.push(last)[s.len() as int] == x);
    }
}

proof fn permuted_texts(a: Seq<Name<'_>>, b: Seq<Name<'_>>, x: Seq<char>)
    requires
        a.to_multiset() == b.to_multiset(),
    ensures
        texts(a).contains(x) ==> texts(b).contains(x),
{
    if texts(a).contains(x) {
        let i = choose|i: int| 0 <= i < texts(a).len() && texts(a)[i] == x;
        a.to_multiset_ensures();
        b.to_multiset_ensures();
        assert(a.contains(a[i]));
        assert(a.to_multiset().count(a[i]) > 0);
        assert(b.contains(a[i]));
        let j = choose|j: int| 0 <= j < b.len() && b[j] == a[i];
        assert(texts(b)[j] == x);
    }
}

/// The number of a name is the only one that gives the name back.
pub proof fn numbers_are_unique(values: Seq<Seq<char>>, i: int, j: int)
    requires
        increasing(values),
        0 <= i < values.len(),
        0 <= j < values.len(),
        values[i] == values[j],
    ensures
        i == j,
{
    if i < j {
        assert(name_before(values[i], values[j]));
    }
    if j < i {
        assert(name_before(values[j], values[i]));
    }
    bytes_before_is_strict(encode_utf8(values[i]), encode_utf8(values[i]));
}

} // verus!

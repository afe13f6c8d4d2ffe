//! Orders, and stable sorting by them.

use vstd::prelude::*;

use crate::text::{chars_of, code_point};

verus! {

/// Values that sort by a strict weak order: of two of them, one may come before the other, and
/// those of which neither does are ties.
pub trait Ranked: Sized {
    /// Whether `self` comes before `other`.
    spec fn before(&self, other: &Self) -> bool;

    /// Whether `self` comes before `other`.
    fn precedes(&self, other: &Self) -> (r: bool)
        ensures
            r == self.before(other),
    ;

    /// What makes `before` an order to sort by.
    proof fn order_laws(a: &Self, b: &Self, c: &Self)
        ensures
            a.before(b) ==> !b.before(a),
            a.before(b) && b.before(c) ==> a.before(c),
            !a.before(b) && !b.before(c) ==> !a.before(c),
    ;
}

/// `s`, which is in order, with `x` put in behind everything that `x` does not come before.
pub open spec fn placed<T: Ranked>(s: Seq<T>, x: T) -> Seq<T>
    decreases s.len(),
{
    if s.len() == 0 || !x.before(&s.last()) {
        s.push(x)
    } else {
        placed(s.drop_last(), x).push(s.last())
    }
}

/// `s` in order, with ties in the order in which they stand in `s`.
pub open spec fn sorted<T: Ranked>(s: Seq<T>) -> Seq<T>
    decreases s.len(),
{
    if s.len() == 0 {
        s
    } else {
        placed(sorted(s.drop_last()), s.last())
    }
}

/// Whether no element of `s` comes before one that stands ahead of it.
pub open spec fn in_order<T: Ranked>(s: Seq<T>) -> bool {
    forall|i: int, j: int|
        #![trigger s[j], s[i]]
        0 <= i < j < s.len() ==> !s[j].before(&s[i])
}

/// `placed` puts the new element at one place and leaves the others in their order.
proof fn lemma_placed_at<T: Ranked>(s: Seq<T>, x: T, at: int)
    requires
        0 <= at <= s.len(),
        at == 0 || !x.before(&s[at - 1]),
        forall|k: int| at <= k < s.len() ==> x.before(&#[trigger] s[k]),
    ensures
        placed(s, x) == s.insert(at, x),
    decreases s.len(),
{
    if at == s.len() {
        assert(s.insert(at, x) =~= s.push(x));
    } else {
        lemma_placed_at(s.drop_last(), x, at);
        assert(s.insert(at, x) =~= s.drop_last().insert(at, x).push(s.last()));
    }
}

/// Sorts `v`, keeping ties in their order.
pub fn stable_sort<T: Ranked>(v: &mut Vec<T>)
    ensures
        final(v)@ == sorted(old(v)@),
{
    let ghost all = v@;
    let n: usize = v.len();
    let mut i: usize = 0;
    assert(all.take(0) =~= Seq::<T>::empty());
    while i < n
        invariant
            i <= n == all.len() == v@.len(),
            v@ == sorted(all.take(i as int)) + all.skip(i as int),
            sorted(all.take(i as int)).len() == i,
        decreases n - i,
    {
        let ghost front = sorted(all.take(i as int));
        let x = v.remove(i);
        assert(x == all[i as int]);
        assert(v@ =~= front + all.skip(i + 1));
        let mut at: usize = i;
        while at > 0 && x.precedes(&v[at - 1])
            invariant
                at <= i < n,
                v@ == front + all.skip(i + 1),
                front.len() == i,
                all.len() == n,
                forall|k: int| at <= k < i ==> x.before(&#[trigger] front[k]),
            decreases at,
        {
            assert(v@[at - 1] == front[at - 1]);
            at = at - 1;
        }
        assert(at > 0 ==> v@[at - 1] == front[at - 1]);
        proof {
            lemma_placed_at(front, x, at as int);
            assert(all.take(i + 1).drop_last() =~= all.take(i as int));
        }
        let ghost rest = v@;
        v.insert(at, x);
        assert(v@ =~= front.insert(at as int, x) + all.skip(i + 1));
        i = i + 1;
    }
    assert(all.take(n as int) =~= all);
    assert(v@ =~= sorted(all));
}

/// Placing an element adds it and nothing else.
proof fn lemma_placed_multiset<T: Ranked>(s: Seq<T>, x: T)
    ensures
        placed(s, x).to_multiset() == s.to_multiset().insert(x),
        placed(s, x).len() == s.len() + 1,
    decreases s.len(),
{
    broadcast use vstd::seq_lib::group_to_multiset_ensures;

    if s.len() == 0 || !x.before(&s.last()) {
    } else {
        lemma_placed_multiset(s.drop_last(), x);
        assert(s =~= s.drop_last().push(s.last()));
        assert(placed(s, x).to_multiset() =~= s.to_multiset().insert(x));
    }
}

/// Sorting rearranges: nothing is lost and nothing is added.
pub proof fn law_sorted_is_a_rearrangement<T: Ranked>(s: Seq<T>)
    ensures
        sorted(s).to_multiset() == s.to_multiset(),
        sorted(s).len() == s.len(),
    decreases s.len(),
{
    broadcast use vstd::seq_lib::group_to_multiset_ensures;

    if s.len() > 0 {
        law_sorted_is_a_rearrangement(s.drop_last());
        lemma_placed_multiset(sorted(s.drop_last()), s.last());
        assert(s =~= s.drop_last().push(s.last()));
    }
}

/// Placing keeps the order, and every element of the outcome is the new one or an old one.
proof fn lemma_placed_in_order<T: Ranked>(s: Seq<T>, x: T)
    requires
        in_order(s),
    ensures
        in_order(placed(s, x)),
        forall|k: int|
            0 <= k < placed(s, x).len() ==> #[trigger] placed(s, x)[k] == x || s.contains(
                placed(s, x)[k],
            ),
    decreases s.len(),
{
    let p = placed(s, x);
    if s.len() == 0 || !x.before(&s.last()) {
        assert forall|i: int, j: int|
            #![trigger p[j], p[i]]
            0 <= i < j < p.len() implies !p[j].before(&p[i]) by {
            if j == s.len() {
                if i < s.len() - 1 {
                    assert(!s.last().before(&s[i]));
                    T::order_laws(&x, &s.last(), &s[i]);
                }
            } else {
                assert(!s[j].before(&s[i]));
            }
        }
        assert forall|k: int| 0 <= k < p.len() implies #[trigger] p[k] == x || s.contains(p[k]) by {
            if k < s.len() {
                assert(p[k] == s[k]);
            }
        }
    } else {
        let d = s.drop_last();
        let q = placed(d, x);
        assert(in_order(d)) by {
            assert forall|i: int, j: int|
                #![trigger d[j], d[i]]
                0 <= i < j < d.len() implies !d[j].before(&d[i]) by {
                assert(!s[j].before(&s[i]));
            }
        }
        lemma_placed_in_order(d, x);
        lemma_placed_multiset(d, x);
        assert forall|i: int, j: int|
            #![trigger p[j], p[i]]
            0 <= i < j < p.len() implies !p[j].before(&p[i]) by {
            if j == q.len() {
                assert(p[j] == s.last());
                assert(p[i] == q[i]);
                if q[i] == x {
                    T::order_laws(&x, &s.last(), &x);
                } else {
                    let m = choose|m: int| 0 <= m < d.len() && d[m] == q[i];
                    assert(d.contains(q[i]));
                    assert(!s[s.len() - 1].before(&s[m]));
                }
            } else {
                assert(!q[j].before(&q[i]));
            }
        }
        assert forall|k: int| 0 <= k < p.len() implies #[trigger] p[k] == x || s.contains(p[k]) by {
            if k < q.len() {
                assert(p[k] == q[k]);
                if q[k] != x {
                    let m = choose|m: int| 0 <= m < d.len() && d[m] == q[k];
                    assert(d.contains(q[k]));
                    assert(s[m] == q[k]);
                }
            } else {
                assert(s[s.len() - 1] == p[k]);
            }
        }
    }
}

/// What is sorted is in order.
pub proof fn law_sorted_is_in_order<T: Ranked>(s: Seq<T>)
    ensures
        in_order(sorted(s)),
    decreases s.len(),
{
    if s.len() > 0 {
        law_sorted_is_in_order(s.drop_last());
        lemma_placed_in_order(sorted(s.drop_last()), s.last());
    }
}

/// The order of texts: by the first character in which they differ, a prefix before what it
/// is a prefix of.
pub open spec fn text_before(a: Seq<char>, b: Seq<char>) -> bool
    decreases a.len(),
{
    if b.len() == 0 {
        false
    } else if a.len() == 0 {
        true
    } else if a.first() != b.first() {
        a.first() < b.first()
    } else {
        text_before(a.drop_first(), b.drop_first())
    }
}

/// Texts are ordered linearly.
pub proof fn lemma_text_order(a: Seq<char>, b: Seq<char>, c: Seq<char>)
    ensures
        text_before(a, b) ==> !text_before(b, a),
        text_before(a, b) && text_before(b, c) ==> text_before(a, c),
        !text_before(a, b) && !text_before(b, c) ==> !text_before(a, c),
        !text_before(a, b) && !text_before(b, a) ==> a == b,
    decreases a.len() + b.len() + c.len(),
{
    if a.len() > 0 && b.len() > 0 && c.len() > 0 {
        lemma_text_order(a.drop_first(), b.drop_first(), c.drop_first());
    } else if a.len() > 0 && b.len() > 0 {
        lemma_text_order(a.drop_first(), b.drop_first(), c);
    }
    if a.len() == 0 && b.len() == 0 {
        assert(a =~= b);
    }
    if a.len() > 0 && b.len() > 0 && a.first() == b.first() && a.drop_first() == b.drop_first() {
        assert(a =~= seq![a.first()] + a.drop_first());
        assert(b =~= seq![b.first()] + b.drop_first());
    }
}

/// Whether the text `a` comes before the text `b`.
pub fn text_precedes(a: &str, b: &str) -> (r: bool)
    ensures
        r == text_before(a@, b@),
{
    let x = chars_of(a);
    let y = chars_of(b);
    let mut i: usize = 0;
    assert(x@.skip(0) =~= a@);
    assert(y@.skip(0) =~= b@);
    while i < x.len() && i < y.len() && x[i] == y[i]
        invariant
            i <= x@.len(),
            i <= y@.len(),
            text_before(x@.skip(i as int), y@.skip(i as int)) == text_before(a@, b@),
        decreases x@.len() - i,
    {
        assert(x@.skip(i as int).drop_first() =~= x@.skip(i + 1));
        assert(y@.skip(i as int).drop_first() =~= y@.skip(i + 1));
        i = i + 1;
    }
    if i == y.len() {
        false
    } else if i == x.len() {
        true
    } else {
        code_point(x[i]) < code_point(y[i])
    }
}

impl Ranked for String {
    open spec fn before(&self, other: &Self) -> bool {
        text_before(self@, other@)
    }

    fn precedes(&self, other: &Self) -> (r: bool) {
        text_precedes(self.as_str(), other.as_str())
    }

    proof fn order_laws(a: &Self, b: &Self, c: &Self) {
        lemma_text_order(a@, b@, c@);
    }
}

/// The elements of `s` of which neither comes before `x` nor `x` before them.
pub open spec fn ties_with<T: Ranked>(s: Seq<T>, x: T) -> Seq<T>
    decreases s.len(),
{
    if s.len() == 0 {
        s
    } else {
        let front = ties_with(s.drop_last(), x);
        if !s.last().before(&x) && !x.before(&s.last()) {
            front.push(s.last())
        } else {
            front
        }
    }
}

proof fn lemma_ties_placed<T: Ranked>(s: Seq<T>, y: T, x: T)
    requires
        in_order(s),
    ensures
        ties_with(placed(s, y), x) == ties_with(s.push(y), x),
    decreases s.len(),
{
    assert(s.push(y).drop_last() =~= s);
    if s.len() == 0 || !y.before(&s.last()) {
    } else {
        let d = s.drop_last();
        assert(in_order(d)) by {
            assert forall|i: int, j: int|
                #![trigger d[j], d[i]]
                0 <= i < j < d.len() implies !d[j].before(&d[i]) by {
                assert(!s[j].before(&s[i]));
            }
        }
        lemma_ties_placed(d, y, x);
        assert(placed(s, y).drop_last() =~= placed(d, y));
        assert(d.push(y).drop_last() =~= d);
        T::order_laws(&y, &x, &s.last());
        reveal_with_fuel(ties_with, 2);
    }
}

/// Elements that tie stay in the order in which they were given.
pub proof fn law_sorting_keeps_ties_in_order<T: Ranked>(s: Seq<T>, x: T)
    ensures
        ties_with(sorted(s), x) == ties_with(s, x),
    decreases s.len(),
{
    if s.len() > 0 {
        let front = s.drop_last();
        law_sorting_keeps_ties_in_order(front, x);
        law_sorted_is_in_order(front);
        lemma_ties_placed(sorted(front), s.last(), x);
        assert(sorted(front).push(s.last()).drop_last() =~= sorted(front));
    }
}

/// A text comes before another if and only if it is its beginning, or the first character in
/// which they differ has the smaller code point. The result gives how far they are the same.
pub proof fn law_texts_are_ordered_by_the_first_difference(a: Seq<char>, b: Seq<char>) -> (k: int)
    ensures
        0 <= k <= a.len(),
        k <= b.len(),
        a.take(k) == b.take(k),
        k < a.len() && k < b.len() ==> a[k] != b[k],
        text_before(a, b) <==> k < b.len() && (k == a.len() || (a[k] as int) < (b[k] as int)),
    decreases a.len(),
{
    if a.len() == 0 || b.len() == 0 || a.first() != b.first() {
        assert(a.take(0) =~= b.take(0));
        0
    } else {
        let x = a.drop_first();
        let y = b.drop_first();
        let k = law_texts_are_ordered_by_the_first_difference(x, y);
        assert(a.take(k + 1) =~= seq![a.first()] + x.take(k));
        assert(b.take(k + 1) =~= seq![b.first()] + y.take(k));
        k + 1
    }
}

} // verus!

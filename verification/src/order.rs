//! Stable sorting by a total preorder.

use crate::permutation;
use vstd::prelude::*;

verus! {

/// A type whose values are ranked by a total preorder.
pub trait Ranked: Sized {
    /// Whether `self` may stand before `other`.
    spec fn rank_le(&self, other: &Self) -> bool;

    /// Any two values are comparable.
    proof fn rank_total(a: Self, b: Self)
        ensures
            a.rank_le(&b) || b.rank_le(&a),
    ;

    /// The preorder is transitive.
    proof fn rank_transitive(a: Self, b: Self, c: Self)
        requires
            a.rank_le(&b),
            b.rank_le(&c),
        ensures
            a.rank_le(&c),
    ;

    /// Whether `self` may stand before `other`.
    fn may_precede(&self, other: &Self) -> (r: bool)
        ensures
            r == self.rank_le(other),
    ;
}

impl Ranked for u64 {
    open spec fn rank_le(&self, other: &Self) -> bool {
        *self <= *other
    }

    proof fn rank_total(a: Self, b: Self) {
    }

    proof fn rank_transitive(a: Self, b: Self, c: Self) {
    }

    fn may_precede(&self, other: &Self) -> (r: bool) {
        *self <= *other
    }
}

/// `x` put into the ranked sequence `s`, behind everything that may stand before it.
pub open spec fn insert_ranked<T: Ranked>(s: Seq<T>, x: T) -> Seq<T>
    decreases s.len(),
{
    if s.len() == 0 || s.last().rank_le(&x) {
        s.push(x)
    } else {
        insert_ranked(s.drop_last(), x).push(s.last())
    }
}

/// The stable ranking of a sequence: what is equally ranked keeps its order.
pub open spec fn ranked<T: Ranked>(s: Seq<T>) -> Seq<T>
    decreases s.len(),
{
    if s.len() == 0 {
        s
    } else {
        insert_ranked(ranked(s.drop_last()), s.last())
    }
}

/// Whether every value may stand before every later one.
pub open spec fn is_ranked<T: Ranked>(s: Seq<T>) -> bool {
    forall|i: int, j: int|
        #![trigger s[i], s[j]]
        0 <= i < j < s.len() ==> s[i].rank_le(&s[j])
}

proof fn lemma_insert_ranked<T: Ranked>(s: Seq<T>, x: T)
    requires
        is_ranked(s),
    ensures
        is_ranked(insert_ranked(s, x)),
        insert_ranked(s, x).to_multiset() == s.to_multiset().insert(x),
        insert_ranked(s, x).len() == s.len() + 1,
        forall|y: T|
            insert_ranked(s, x).contains(y) ==> s.contains(y) || y == x,
    decreases s.len(),
{
    broadcast use vstd::seq_lib::group_to_multiset_ensures;

    let r = insert_ranked(s, x);
    if s.len() == 0 || s.last().rank_le(&x) {
        assert forall|i: int, j: int|
            #![trigger r[i], r[j]]
            0 <= i < j < r.len() implies r[i].rank_le(&r[j]) by {
            if j == s.len() && i < s.len() - 1 {
                T::rank_transitive(s[i], s.last(), x);
            }
        }
        assert forall|y: T| r.contains(y) implies s.contains(y) || y == x by {
            let k = choose|k: int| 0 <= k < r.len() && r[k] == y;
            if k < s.len() {
                assert(s[k] == y);
            }
        }
    } else {
        let t = s.drop_last();
        lemma_insert_ranked(t, x);
        let q = insert_ranked(t, x);
        T::rank_total(s.last(), x);
        assert forall|i: int, j: int|
            #![trigger r[i], r[j]]
            0 <= i < j < r.len() implies r[i].rank_le(&r[j]) by {
            if j == q.len() {
                assert(q.contains(q[i]));
                if t.contains(q[i]) {
                    let k = choose|k: int| 0 <= k < t.len() && t[k] == q[i];
                    assert(s[k].rank_le(&s.last()));
                }
            }
        }
        assert(s =~= t.push(s.last()));
        assert(r.to_multiset() =~= s.to_multiset().insert(x));
        assert forall|y: T| r.contains(y) implies s.contains(y) || y == x by {
            let k = choose|k: int| 0 <= k < r.len() && r[k] == y;
            if k < q.len() {
                assert(q.contains(y));
                if t.contains(y) {
                    let m = choose|m: int| 0 <= m < t.len() && t[m] == y;
                    assert(s[m] == y);
                }
            } else {
                assert(s[s.len() - 1] == y);
            }
        }
    }
}

/// The ranking holds the same values as the sequence, in order.
pub proof fn lemma_ranked<T: Ranked>(s: Seq<T>)
    ensures
        is_ranked(ranked(s)),
        ranked(s).to_multiset() == s.to_multiset(),
        ranked(s).len() == s.len(),
    decreases s.len(),
{
    broadcast use vstd::seq_lib::group_to_multiset_ensures;

    if s.len() > 0 {
        lemma_ranked(s.drop_last());
        lemma_insert_ranked(ranked(s.drop_last()), s.last());
        assert(s =~= s.drop_last().push(s.last()));
    }
}

proof fn lemma_insert_stable<T: Ranked>(s: Seq<T>, x: T, before: spec_fn(T, T) -> bool)
    requires
        is_ranked(s),
        stable_under(s, before),
        forall|i: int| 0 <= i < s.len() ==> before(#[trigger] s[i], x),
    ensures
        stable_under(insert_ranked(s, x), before),
    decreases s.len(),
{
    let r = insert_ranked(s, x);
    if s.len() > 0 && !s.last().rank_le(&x) {
        let t = s.drop_last();
        assert forall|i: int, j: int|
            #![trigger t[i], t[j]]
            0 <= i < j < t.len() implies !t[j].rank_le(&t[i]) || before(t[i], t[j]) by {
            assert(t[i] == s[i] && t[j] == s[j]);
        }
        lemma_insert_stable(t, x, before);
        lemma_insert_ranked(t, x);
        let q = insert_ranked(t, x);
        assert forall|i: int, j: int|
            #![trigger r[i], r[j]]
            0 <= i < j < r.len() implies !r[j].rank_le(&r[i]) || before(r[i], r[j]) by {
            assert(r == q.push(s.last()));
            assert(r[i] == q[i]);
            if j == q.len() {
                assert(q.contains(q[i]));
                if q[i] != x {
                    assert(t.contains(q[i]));
                    let k = choose|k: int| 0 <= k < t.len() && t[k] == q[i];
                    assert(s[k] == t[k]);
                    assert(s[s.len() - 1] == r[j]);
                }
            } else {
                assert(r[j] == q[j]);
            }
        }
    }
}

/// Whether of two equally ranked values the earlier one stands before the later one in a relation.
pub open spec fn stable_under<T: Ranked>(s: Seq<T>, before: spec_fn(T, T) -> bool) -> bool {
    forall|i: int, j: int|
        #![trigger s[i], s[j]]
        0 <= i < j < s.len() ==> !s[j].rank_le(&s[i]) || before(s[i], s[j])
}

/// Ranking keeps the order of what is equally ranked.
pub proof fn lemma_ranked_stable<T: Ranked>(s: Seq<T>, before: spec_fn(T, T) -> bool)
    requires
        permutation::in_order(s, before),
    ensures
        stable_under(ranked(s), before),
    decreases s.len(),
{
    broadcast use vstd::seq_lib::group_to_multiset_ensures;

    if s.len() > 0 {
        let t = s.drop_last();
        assert forall|i: int, j: int|
            #![trigger t[i], t[j]]
            0 <= i < j < t.len() implies before(t[i], t[j]) by {
            assert(t[i] == s[i] && t[j] == s[j]);
        }
        lemma_ranked_stable(t, before);
        lemma_ranked(t);
        let q = ranked(t);
        assert forall|i: int| 0 <= i < q.len() implies before(#[trigger] q[i], s.last()) by {
            assert(q.contains(q[i]));
            assert(t.to_multiset().count(q[i]) > 0);
            let k = choose|k: int| 0 <= k < t.len() && t[k] == q[i];
            assert(s[k] == q[i] && s[s.len() - 1] == s.last());
        }
        lemma_insert_stable(q, s.last(), before);
    }
}

/// A sequence that is ranked already is its own ranking.
pub proof fn lemma_ranked_fixed<T: Ranked>(s: Seq<T>)
    requires
        is_ranked(s),
    ensures
        ranked(s) == s,
    decreases s.len(),
{
    if s.len() > 0 {
        let t = s.drop_last();
        lemma_ranked_fixed(t);
        if t.len() > 0 {
            assert(s[t.len() - 1].rank_le(&s[t.len() as int]));
        }
        assert(s =~= t.push(s.last()));
    }
}

/// Two ranked sequences merged. Of equally ranked values those of `s` come first.
pub open spec fn merged<T: Ranked>(s: Seq<T>, t: Seq<T>) -> Seq<T>
    decreases s.len() + t.len(),
{
    if t.len() == 0 {
        s
    } else if s.len() == 0 {
        t
    } else if s.last().rank_le(&t.last()) {
        merged(s, t.drop_last()).push(t.last())
    } else {
        merged(s.drop_last(), t).push(s.last())
    }
}

proof fn lemma_insert_merged<T: Ranked>(s: Seq<T>, t: Seq<T>, x: T)
    ensures
        insert_ranked(merged(s, t), x) == merged(s, insert_ranked(t, x)),
    decreases s.len() + t.len(),
{
    let behind = merged(s, t);
    let larger = insert_ranked(t, x);
    assert(larger.len() > 0);
    if s.len() == 0 {
    } else if t.len() == 0 {
        assert(larger =~= t.push(x));
        assert(larger.drop_last() =~= t);
        if !s.last().rank_le(&x) {
            lemma_insert_merged(s.drop_last(), t, x);
        }
    } else if s.last().rank_le(&t.last()) {
        assert(behind.drop_last() =~= merged(s, t.drop_last()));
        if t.last().rank_le(&x) {
            T::rank_transitive(s.last(), t.last(), x);
            assert(larger.drop_last() =~= t);
        } else {
            lemma_insert_merged(s, t.drop_last(), x);
            assert(larger.drop_last() =~= insert_ranked(t.drop_last(), x));
        }
    } else {
        assert(behind.drop_last() =~= merged(s.drop_last(), t));
        T::rank_total(s.last(), t.last());
        lemma_insert_merged(s.drop_last(), t, x);
        if t.last().rank_le(&x) {
            assert(larger.drop_last() =~= t);
        } else if s.last().rank_le(&x) {
            T::rank_transitive(t.last(), s.last(), x);
        }
    }
}

proof fn lemma_ranked_merged<T: Ranked>(s: Seq<T>, t: Seq<T>)
    ensures
        ranked(s + t) == merged(ranked(s), ranked(t)),
    decreases t.len(),
{
    if t.len() == 0 {
        assert(s + t =~= s);
    } else {
        lemma_ranked_merged(s, t.drop_last());
        assert((s + t).drop_last() =~= s + t.drop_last());
        lemma_insert_merged(ranked(s), ranked(t.drop_last()), t.last());
    }
}

fn merge_ranked<T: Ranked>(front: Vec<T>, back: Vec<T>) -> (r: Vec<T>)
    ensures
        r@ == merged(front@, back@),
{
    let mut a = front;
    let mut b = back;
    let mut reversed: Vec<T> = Vec::new();
    while a.len() > 0 && b.len() > 0
        invariant
            merged(front@, back@) == merged(a@, b@) + reversed@.reverse(),
        decreases a@.len() + b@.len(),
    {
        let ghost before = (a@, b@, reversed@);
        let next = if a[a.len() - 1].may_precede(&b[b.len() - 1]) {
            b.pop()
        } else {
            a.pop()
        };
        if let Some(x) = next {
            reversed.push(x);
            assert(reversed@.reverse() =~= seq![x] + before.2.reverse());
            assert(merged(before.0, before.1) + before.2.reverse() =~= merged(a@, b@)
                + reversed@.reverse());
        }
    }
    let mut out = if b.len() == 0 {
        a
    } else {
        b
    };
    assert(out@ == merged(a@, b@));
    while reversed.len() > 0
        invariant
            merged(front@, back@) == out@ + reversed@.reverse(),
        decreases reversed@.len(),
    {
        let ghost before = (out@, reversed@);
        if let Some(x) = reversed.pop() {
            out.push(x);
            assert(before.0 + before.1.reverse() =~= out@ + reversed@.reverse());
        }
    }
    assert(out@ + reversed@.reverse() =~= out@);
    out
}

/// Sort stably.
pub fn sort_ranked<T: Ranked>(items: Vec<T>) -> (r: Vec<T>)
    ensures
        r@ == ranked(items@),
    decreases items@.len(),
{
    let mut front = items;
    if front.len() < 2 {
        proof {
            lemma_ranked_fixed(items@);
        }
        return front;
    }
    let middle: usize = front.len() / 2;
    let back = front.split_off(middle);
    proof {
        lemma_ranked_merged(front@, back@);
        assert(front@ + back@ =~= items@);
    }
    merge_ranked(sort_ranked(front), sort_ranked(back))
}

} // verus!

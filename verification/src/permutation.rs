//! What does not depend on the order of a sequence.

use vstd::prelude::*;

verus! {

/// A relation that holds between any two values of a sequence.
pub open spec fn pairwise<A>(s: Seq<A>, r: spec_fn(A, A) -> bool) -> bool {
    forall|i: int, j: int|
        #![trigger s[i], s[j]]
        0 <= i < s.len() && 0 <= j < s.len() && i != j ==> r(s[i], s[j])
}

/// Whether a relation holds between any two values does not depend on their order.
pub proof fn lemma_pairwise_permutation<A>(s: Seq<A>, t: Seq<A>, r: spec_fn(A, A) -> bool)
    requires
        s.to_multiset() == t.to_multiset(),
        pairwise(s, r),
    ensures
        pairwise(t, r),
    decreases t.len(),
{
    broadcast use vstd::seq_lib::group_to_multiset_ensures;

    assert(s.len() == s.to_multiset().len());
    assert(t.len() == t.to_multiset().len());
    if t.len() > 0 {
        let n = t.len() - 1;
        let x = t[n];
        assert(t.contains(x));
        assert(s.to_multiset().count(x) > 0);
        assert(s.contains(x));
        let k = choose|k: int| 0 <= k < s.len() && s[k] == x;
        let s1 = s.remove(k);
        let t1 = t.remove(n);
        assert(s1.to_multiset() =~= t1.to_multiset());
        assert(pairwise(s1, r)) by {
            assert forall|i: int, j: int|
                #![trigger s1[i], s1[j]]
                0 <= i < s1.len() && 0 <= j < s1.len() && i != j implies r(s1[i], s1[j]) by {
                let i2 = if i < k {
                    i
                } else {
                    i + 1
                };
                let j2 = if j < k {
                    j
                } else {
                    j + 1
                };
                assert(s1[i] == s[i2] && s1[j] == s[j2]);
            }
        }
        lemma_pairwise_permutation(s1, t1, r);
        assert forall|i: int, j: int|
            #![trigger t[i], t[j]]
            0 <= i < t.len() && 0 <= j < t.len() && i != j implies r(t[i], t[j]) by {
            if i < n && j < n {
                assert(t1[i] == t[i] && t1[j] == t[j]);
            } else {
                let m = if i < n {
                    i
                } else {
                    j
                };
                assert(t1[m] == t[m]);
                assert(t1.contains(t[m]));
                assert(s1.to_multiset().count(t[m]) > 0);
                assert(s1.contains(t[m]));
                let q = choose|q: int| 0 <= q < s1.len() && s1[q] == t[m];
                let q2 = if q < k {
                    q
                } else {
                    q + 1
                };
                assert(s[q2] == t[m]);
                assert(r(s[q2], s[k]) && r(s[k], s[q2]));
            }
        }
    }
}

/// How many values of a sequence satisfy a predicate.
pub open spec fn count_if<A>(s: Seq<A>, p: spec_fn(A) -> bool) -> nat
    decreases s.len(),
{
    if s.len() == 0 {
        0
    } else {
        count_if(s.drop_last(), p) + (if p(s.last()) {
            1nat
        } else {
            0nat
        })
    }
}

/// Counting over a concatenation.
pub proof fn lemma_count_add<A>(s: Seq<A>, t: Seq<A>, p: spec_fn(A) -> bool)
    ensures
        count_if(s + t, p) == count_if(s, p) + count_if(t, p),
    decreases t.len(),
{
    if t.len() == 0 {
        assert(s + t =~= s);
    } else {
        lemma_count_add(s, t.drop_last(), p);
        assert((s + t).drop_last() =~= s + t.drop_last());
    }
}

/// No more values satisfy a predicate than there are.
pub proof fn lemma_count_bound<A>(s: Seq<A>, p: spec_fn(A) -> bool)
    ensures
        count_if(s, p) <= s.len(),
    decreases s.len(),
{
    if s.len() > 0 {
        lemma_count_bound(s.drop_last(), p);
    }
}

/// A predicate that all values satisfy counts all of them.
pub proof fn lemma_count_all<A>(s: Seq<A>, p: spec_fn(A) -> bool)
    requires
        forall|i: int| 0 <= i < s.len() ==> p(#[trigger] s[i]),
    ensures
        count_if(s, p) == s.len(),
    decreases s.len(),
{
    if s.len() > 0 {
        assert forall|i: int| 0 <= i < s.drop_last().len() implies p(
            #[trigger] s.drop_last()[i],
        ) by {
            assert(s[i] == s.drop_last()[i]);
        }
        lemma_count_all(s.drop_last(), p);
        assert(p(s[s.len() - 1]));
    }
}

/// A predicate that no value satisfies counts none.
pub proof fn lemma_count_none<A>(s: Seq<A>, p: spec_fn(A) -> bool)
    requires
        forall|i: int| 0 <= i < s.len() ==> !p(#[trigger] s[i]),
    ensures
        count_if(s, p) == 0,
    decreases s.len(),
{
    if s.len() > 0 {
        assert forall|i: int| 0 <= i < s.drop_last().len() implies !p(
            #[trigger] s.drop_last()[i],
        ) by {
            assert(s[i] == s.drop_last()[i]);
        }
        lemma_count_none(s.drop_last(), p);
        assert(!p(s[s.len() - 1]));
    }
}

/// A predicate that implies another is satisfied no more often.
pub proof fn lemma_count_implies<A>(s: Seq<A>, p: spec_fn(A) -> bool, q: spec_fn(A) -> bool)
    requires
        forall|i: int| 0 <= i < s.len() && p(#[trigger] s[i]) ==> q(s[i]),
    ensures
        count_if(s, p) <= count_if(s, q),
    decreases s.len(),
{
    if s.len() > 0 {
        assert forall|i: int| 0 <= i < s.drop_last().len() && p(
            #[trigger] s.drop_last()[i],
        ) implies q(s.drop_last()[i]) by {
            assert(s[i] == s.drop_last()[i]);
        }
        lemma_count_implies(s.drop_last(), p, q);
        assert(s[s.len() - 1] == s.last());
    }
}

/// Two predicates that agree on the values of a sequence are satisfied equally often.
pub proof fn lemma_count_same<A>(s: Seq<A>, p: spec_fn(A) -> bool, q: spec_fn(A) -> bool)
    requires
        forall|i: int| 0 <= i < s.len() ==> p(#[trigger] s[i]) == q(s[i]),
    ensures
        count_if(s, p) == count_if(s, q),
{
    lemma_count_implies(s, p, q);
    lemma_count_implies(s, q, p);
}

/// Removing a value takes its share from the count.
pub proof fn lemma_count_remove<A>(s: Seq<A>, k: int, p: spec_fn(A) -> bool)
    requires
        0 <= k < s.len(),
    ensures
        count_if(s, p) == count_if(s.remove(k), p) + (if p(s[k]) {
            1nat
        } else {
            0nat
        }),
{
    let a = s.take(k);
    let b = s.skip(k + 1);
    assert(s =~= a.push(s[k]) + b);
    assert(s.remove(k) =~= a + b);
    lemma_count_add(a.push(s[k]), b, p);
    lemma_count_add(a, b, p);
    assert(a.push(s[k]).drop_last() =~= a);
}

/// How often a predicate is satisfied does not depend on the order.
pub proof fn lemma_count_permutation<A>(s: Seq<A>, t: Seq<A>, p: spec_fn(A) -> bool)
    requires
        s.to_multiset() == t.to_multiset(),
    ensures
        count_if(s, p) == count_if(t, p),
    decreases t.len(),
{
    broadcast use vstd::seq_lib::group_to_multiset_ensures;

    assert(s.len() == s.to_multiset().len());
    assert(t.len() == t.to_multiset().len());
    if t.len() > 0 {
        let n = t.len() - 1;
        assert(t.contains(t[n]));
        assert(s.to_multiset().count(t[n]) > 0);
        assert(s.contains(t[n]));
        let k = choose|k: int| 0 <= k < s.len() && s[k] == t[n];
        assert(s.remove(k).to_multiset() =~= t.remove(n).to_multiset());
        lemma_count_permutation(s.remove(k), t.remove(n), p);
        lemma_count_remove(s, k, p);
        lemma_count_remove(t, n, p);
    }
}

/// What a filter keeps is what its predicate counts.
pub proof fn lemma_count_filter<A>(s: Seq<A>, p: spec_fn(A) -> bool)
    ensures
        s.filter(p).len() == count_if(s, p),
    decreases s.len(),
{
    reveal(Seq::filter);
    if s.len() > 0 {
        lemma_count_filter(s.drop_last(), p);
    }
}

/// A value is mapped to if and only if a value of the sequence maps to it.
pub proof fn lemma_filter_map_contains<A, B>(s: Seq<A>, f: spec_fn(A) -> Option<B>, b: B)
    ensures
        s.filter_map(f).contains(b) <==> exists|i: int|
            0 <= i < s.len() && f(#[trigger] s[i]) == Some(b),
    decreases s.len(),
{
    if s.len() > 0 {
        let t = s.drop_last();
        let r = t.filter_map(f);
        lemma_filter_map_contains(t, f, b);
        let n = s.len() - 1;
        if r.contains(b) {
            let k = choose|k: int| 0 <= k < r.len() && r[k] == b;
            assert(s.filter_map(f)[k] == b);
            let i = choose|i: int| 0 <= i < t.len() && f(#[trigger] t[i]) == Some(b);
            assert(f(s[i]) == Some(b));
        }
        if f(s[n]) == Some(b) {
            assert(s.filter_map(f)[r.len() as int] == b);
        }
        if s.filter_map(f).contains(b) && !r.contains(b) {
            let k = choose|k: int| 0 <= k < s.filter_map(f).len() && s.filter_map(f)[k] == b;
            if k < r.len() {
                assert(r[k] == b);
            }
            assert(f(s[n]) == Some(b));
        }
        if exists|i: int| 0 <= i < s.len() && f(#[trigger] s[i]) == Some(b) {
            let i = choose|i: int| 0 <= i < s.len() && f(#[trigger] s[i]) == Some(b);
            if i < n {
                assert(f(t[i]) == Some(b));
            }
        }
    }
}

/// Sequences of the same values, in whatever order, have the same images.
pub proof fn lemma_images_permutation<A, B>(s: Seq<A>, t: Seq<A>, f: spec_fn(A) -> B)
    requires
        s.to_multiset() == t.to_multiset(),
    ensures
        forall|b: B| s.map_values(f).contains(b) <==> t.map_values(f).contains(b),
{
    broadcast use vstd::seq_lib::group_to_multiset_ensures;

    assert forall|b: B| s.map_values(f).contains(b) implies t.map_values(f).contains(b) by {
        let k = choose|k: int| 0 <= k < s.map_values(f).len() && s.map_values(f)[k] == b;
        assert(s.contains(s[k]));
        assert(t.to_multiset().count(s[k]) > 0);
        let m = choose|m: int| 0 <= m < t.len() && t[m] == s[k];
        assert(t.map_values(f)[m] == b);
    }
    assert forall|b: B| t.map_values(f).contains(b) implies s.map_values(f).contains(b) by {
        let k = choose|k: int| 0 <= k < t.map_values(f).len() && t.map_values(f)[k] == b;
        assert(t.contains(t[k]));
        assert(s.to_multiset().count(t[k]) > 0);
        let m = choose|m: int| 0 <= m < s.len() && s[m] == t[k];
        assert(s.map_values(f)[m] == b);
    }
}

/// Whether every value stands in a relation to every later one.
pub open spec fn in_order<A>(s: Seq<A>, before: spec_fn(A, A) -> bool) -> bool {
    forall|i: int, j: int|
        #![trigger s[i], s[j]]
        0 <= i < j < s.len() ==> before(s[i], s[j])
}

/// Under an order in which no two values each come before the other, a sequence is told by its
/// values.
pub proof fn lemma_order_fixes_sequence<A>(s: Seq<A>, t: Seq<A>, before: spec_fn(A, A) -> bool)
    requires
        in_order(s, before),
        in_order(t, before),
        forall|a: A, b: A| #[trigger] before(a, b) ==> !before(b, a),
        forall|a: A| s.contains(a) <==> t.contains(a),
    ensures
        s == t,
    decreases s.len(),
{
    if s.len() == 0 {
        if t.len() > 0 {
            assert(t.contains(t[0]));
            assert(s.contains(t[0]));
        }
        assert(s =~= t);
    } else {
        assert(s.contains(s[0]));
        assert(t.contains(s[0]));
        let j = choose|j: int| 0 <= j < t.len() && t[j] == s[0];
        assert(t.contains(t[0]));
        assert(s.contains(t[0]));
        let i = choose|i: int| 0 <= i < s.len() && s[i] == t[0];
        if s[0] != t[0] {
            assert(before(t[0], t[j]));
            assert(before(s[0], s[i]));
        }
        let s1 = s.drop_first();
        let t1 = t.drop_first();
        assert forall|a: A| s1.contains(a) <==> t1.contains(a) by {
            if s1.contains(a) {
                let k = choose|k: int| 0 <= k < s1.len() && s1[k] == a;
                assert(s[k + 1] == a);
                assert(before(s[0], s[k + 1]));
                assert(t.contains(a));
                let m = choose|m: int| 0 <= m < t.len() && t[m] == a;
                assert(m > 0);
                assert(t1[m - 1] == a);
            }
            if t1.contains(a) {
                let k = choose|k: int| 0 <= k < t1.len() && t1[k] == a;
                assert(t[k + 1] == a);
                assert(before(t[0], t[k + 1]));
                assert(s.contains(a));
                let m = choose|m: int| 0 <= m < s.len() && s[m] == a;
                assert(m > 0);
                assert(s1[m - 1] == a);
            }
        }
        assert(in_order(s1, before)) by {
            assert forall|i: int, j: int|
                #![trigger s1[i], s1[j]]
                0 <= i < j < s1.len() implies before(s1[i], s1[j]) by {
                assert(s1[i] == s[i + 1] && s1[j] == s[j + 1]);
            }
        }
        assert(in_order(t1, before)) by {
            assert forall|i: int, j: int|
                #![trigger t1[i], t1[j]]
                0 <= i < j < t1.len() implies before(t1[i], t1[j]) by {
                assert(t1[i] == t[i + 1] && t1[j] == t[j + 1]);
            }
        }
        lemma_order_fixes_sequence(s1, t1, before);
        assert(s =~= seq![s[0]] + s1);
        assert(t =~= seq![t[0]] + t1);
    }
}

/// Replacing a value exchanges its share of the count.
pub proof fn lemma_count_update<A>(s: Seq<A>, k: int, x: A, p: spec_fn(A) -> bool)
    requires
        0 <= k < s.len(),
    ensures
        count_if(s.update(k, x), p) + (if p(s[k]) {
            1nat
        } else {
            0nat
        }) == count_if(s, p) + (if p(x) {
            1nat
        } else {
            0nat
        }),
{
    lemma_count_remove(s, k, p);
    lemma_count_remove(s.update(k, x), k, p);
    assert(s.update(k, x).remove(k) =~= s.remove(k));
}

/// What a filter keeps stood in the sequence, and satisfies the predicate.
pub proof fn lemma_filter_contains<A>(s: Seq<A>, p: spec_fn(A) -> bool, x: A)
    ensures
        s.filter(p).contains(x) <==> s.contains(x) && p(x),
    decreases s.len(),
{
    reveal(Seq::filter);
    if s.len() > 0 {
        let t = s.drop_last();
        let f = t.filter(p);
        lemma_filter_contains(t, p, x);
        if t.contains(x) {
            let k = choose|k: int| 0 <= k < t.len() && t[k] == x;
            assert(s[k] == x);
        }
        if s.contains(x) && !t.contains(x) {
            let k = choose|k: int| 0 <= k < s.len() && s[k] == x;
            if k < t.len() {
                assert(t[k] == x);
            }
            assert(x == s.last());
        }
        assert(s[s.len() - 1] == s.last());
        if p(s.last()) {
            let g = f.push(s.last());
            assert(g == s.filter(p));
            assert(g[f.len() as int] == s.last());
            if f.contains(x) {
                let k = choose|k: int| 0 <= k < f.len() && f[k] == x;
                assert(g[k] == x);
            }
            if g.contains(x) && !f.contains(x) {
                let k = choose|k: int| 0 <= k < g.len() && g[k] == x;
                if k < f.len() {
                    assert(f[k] == x);
                }
            }
        }
    }
}

/// A relation between any two values also holds between any two that a filter keeps.
pub proof fn lemma_pairwise_filter<A>(
    s: Seq<A>,
    r: spec_fn(A, A) -> bool,
    p: spec_fn(A) -> bool,
)
    requires
        pairwise(s, r),
    ensures
        pairwise(s.filter(p), r),
    decreases s.len(),
{
    reveal(Seq::filter);
    if s.len() > 0 {
        let t = s.drop_last();
        assert forall|i: int, j: int|
            #![trigger t[i], t[j]]
            0 <= i < t.len() && 0 <= j < t.len() && i != j implies r(t[i], t[j]) by {
            assert(t[i] == s[i] && t[j] == s[j]);
        }
        lemma_pairwise_filter(t, r, p);
        let f = t.filter(p);
        if p(s.last()) {
            lemma_pairwise_push(t, f, s, r, p);
        }
    }
}

proof fn lemma_pairwise_push<A>(
    t: Seq<A>,
    f: Seq<A>,
    s: Seq<A>,
    r: spec_fn(A, A) -> bool,
    p: spec_fn(A) -> bool,
)
    requires
        s.len() > 0,
        t == s.drop_last(),
        f == t.filter(p),
        pairwise(s, r),
        pairwise(f, r),
    ensures
        pairwise(f.push(s.last()), r),
{
    let g = f.push(s.last());
    assert forall|i: int, j: int|
        #![trigger g[i], g[j]]
        0 <= i < g.len() && 0 <= j < g.len() && i != j implies r(g[i], g[j]) by {
        if i < f.len() && j < f.len() {
            assert(g[i] == f[i] && g[j] == f[j]);
        } else {
            let m = if i < f.len() {
                i
            } else {
                j
            };
            assert(g[m] == f[m]);
            assert(f.contains(f[m]));
            lemma_filter_contains(t, p, f[m]);
            let k = choose|k: int| 0 <= k < t.len() && t[k] == f[m];
            assert(s[k] == f[m] && s[s.len() - 1] == s.last());
            assert(r(s[k], s[s.len() - 1]) && r(s[s.len() - 1], s[k]));
        }
    }
}

/// A value stands in every permutation of a sequence, or in none.
pub proof fn lemma_contains_permutation<A>(s: Seq<A>, t: Seq<A>, x: A)
    requires
        s.to_multiset() == t.to_multiset(),
    ensures
        s.contains(x) <==> t.contains(x),
        s.len() == t.len(),
{
    broadcast use vstd::seq_lib::group_to_multiset_ensures;

    assert(s.contains(x) <==> s.to_multiset().count(x) > 0);
    assert(t.contains(x) <==> t.to_multiset().count(x) > 0);
    assert(s.len() == s.to_multiset().len());
    assert(t.len() == t.to_multiset().len());
}

proof fn lemma_filter_multiset<A>(s: Seq<A>, p: spec_fn(A) -> bool)
    ensures
        s.filter(p).to_multiset() == s.to_multiset().filter(p),
    decreases s.len(),
{
    broadcast use vstd::seq_lib::group_to_multiset_ensures;

    reveal(Seq::filter);
    if s.len() == 0 {
        assert(s =~= Seq::empty());
        assert(s.filter(p).to_multiset() =~= s.to_multiset().filter(p));
    } else {
        let t = s.drop_last();
        lemma_filter_multiset(t, p);
        assert(s =~= t.push(s.last()));
        assert(s.to_multiset() =~= t.to_multiset().insert(s.last()));
        assert(s.filter(p).to_multiset() =~= s.to_multiset().filter(p));
    }
}

/// Filtering a permutation gives a permutation.
pub proof fn lemma_filter_permutation<A>(s: Seq<A>, t: Seq<A>, p: spec_fn(A) -> bool)
    requires
        s.to_multiset() == t.to_multiset(),
    ensures
        s.filter(p).to_multiset() == t.filter(p).to_multiset(),
{
    lemma_filter_multiset(s, p);
    lemma_filter_multiset(t, p);
}

/// A filter on part of the values keeps part of what it keeps of all.
pub proof fn lemma_filter_part<A>(s: Seq<A>, t: Seq<A>, p: spec_fn(A) -> bool)
    requires
        s.to_multiset().subset_of(t.to_multiset()),
    ensures
        s.filter(p).to_multiset().subset_of(t.filter(p).to_multiset()),
{
    lemma_filter_multiset(s, p);
    lemma_filter_multiset(t, p);
}

/// Mapping the values of a concatenation.
pub proof fn lemma_filter_map_add<A, B>(s: Seq<A>, t: Seq<A>, f: spec_fn(A) -> Option<B>)
    ensures
        (s + t).filter_map(f) == s.filter_map(f) + t.filter_map(f),
    decreases t.len(),
{
    if t.len() == 0 {
        assert(s + t =~= s);
        assert(s.filter_map(f) + t.filter_map(f) =~= s.filter_map(f));
    } else {
        lemma_filter_map_add(s, t.drop_last(), f);
        assert((s + t).drop_last() =~= s + t.drop_last());
        assert((s + t).filter_map(f) =~= s.filter_map(f) + t.filter_map(f));
    }
}

proof fn lemma_filter_map_remove<A, B>(s: Seq<A>, k: int, f: spec_fn(A) -> Option<B>)
    requires
        0 <= k < s.len(),
    ensures
        s.filter_map(f).to_multiset() == (match f(s[k]) {
            Some(b) => s.remove(k).filter_map(f).to_multiset().insert(b),
            None => s.remove(k).filter_map(f).to_multiset(),
        }),
{
    broadcast use vstd::seq_lib::group_to_multiset_ensures;

    let a = s.take(k);
    let b = s.skip(k + 1);
    let mid = a.push(s[k]);
    assert(s =~= mid + b);
    assert(s.remove(k) =~= a + b);
    lemma_filter_map_add(mid, b, f);
    lemma_filter_map_add(a, b, f);
    assert(mid.drop_last() =~= a);
    let left = a.filter_map(f);
    let right = b.filter_map(f);
    vstd::seq_lib::lemma_multiset_commutative(mid.filter_map(f), right);
    vstd::seq_lib::lemma_multiset_commutative(left, right);
    match f(s[k]) {
        Some(x) => {
            assert(mid.filter_map(f) =~= left.push(x));
            assert(s.filter_map(f).to_multiset() =~= s.remove(k).filter_map(
                f,
            ).to_multiset().insert(x));
        },
        None => {
            assert(mid.filter_map(f) =~= left);
        },
    }
}

/// Mapping a permutation gives a permutation.
pub proof fn lemma_filter_map_permutation<A, B>(
    s: Seq<A>,
    t: Seq<A>,
    f: spec_fn(A) -> Option<B>,
)
    requires
        s.to_multiset() == t.to_multiset(),
    ensures
        s.filter_map(f).to_multiset() == t.filter_map(f).to_multiset(),
    decreases t.len(),
{
    broadcast use vstd::seq_lib::group_to_multiset_ensures;

    assert(s.len() == s.to_multiset().len());
    assert(t.len() == t.to_multiset().len());
    if t.len() > 0 {
        let n = t.len() - 1;
        assert(t.contains(t[n]));
        assert(s.to_multiset().count(t[n]) > 0);
        assert(s.contains(t[n]));
        let k = choose|k: int| 0 <= k < s.len() && s[k] == t[n];
        assert(s.remove(k).to_multiset() =~= t.remove(n).to_multiset());
        lemma_filter_map_permutation(s.remove(k), t.remove(n), f);
        lemma_filter_map_remove(s, k, f);
        lemma_filter_map_remove(t, n, f);
    } else {
        assert(s =~= t);
    }
}

/// Mapping after mapping all values.
pub proof fn lemma_filter_map_of_map<A, B, C>(
    s: Seq<A>,
    g: spec_fn(A) -> B,
    f: spec_fn(B) -> Option<C>,
)
    ensures
        s.map_values(g).filter_map(f) == s.filter_map(|a: A| f(g(a))),
    decreases s.len(),
{
    if s.len() == 0 {
        assert(s.map_values(g).filter_map(f) =~= s.filter_map(|a: A| f(g(a))));
    } else {
        lemma_filter_map_of_map(s.drop_last(), g, f);
        assert(s.map_values(g).drop_last() =~= s.drop_last().map_values(g));
        assert(s.map_values(g).last() == g(s.last()));
    }
}

/// What an option's value maps to.
pub open spec fn mapped<A, B>(a: Option<A>, h: spec_fn(A) -> B) -> Option<B> {
    match a {
        Some(x) => Some(h(x)),
        None => None,
    }
}

/// Mapping all values that were mapped to.
pub proof fn lemma_map_of_filter_map<A, B, C>(
    s: Seq<A>,
    f: spec_fn(A) -> Option<B>,
    h: spec_fn(B) -> C,
)
    ensures
        s.filter_map(f).map_values(h) == s.filter_map(|a: A| mapped(f(a), h)),
    decreases s.len(),
{
    if s.len() > 0 {
        lemma_map_of_filter_map(s.drop_last(), f, h);
    }
    assert(s.filter_map(f).map_values(h) =~= s.filter_map(|a: A| mapped(f(a), h)));
}

/// Mappings that agree on the values of a sequence give the same.
pub proof fn lemma_filter_map_same<A, B>(
    s: Seq<A>,
    f: spec_fn(A) -> Option<B>,
    g: spec_fn(A) -> Option<B>,
)
    requires
        forall|i: int| 0 <= i < s.len() ==> f(#[trigger] s[i]) == g(s[i]),
    ensures
        s.filter_map(f) == s.filter_map(g),
    decreases s.len(),
{
    if s.len() > 0 {
        assert forall|i: int| 0 <= i < s.drop_last().len() implies f(
            #[trigger] s.drop_last()[i],
        ) == g(s.drop_last()[i]) by {
            assert(s[i] == s.drop_last()[i]);
        }
        lemma_filter_map_same(s.drop_last(), f, g);
        assert(f(s[s.len() - 1]) == g(s[s.len() - 1]));
    } else {
        assert(s.filter_map(f) =~= s.filter_map(g));
    }
}

/// Sequences that hold the same values, each once, are permutations of each other.
pub proof fn lemma_same_values_permutation<A>(s: Seq<A>, t: Seq<A>)
    requires
        s.no_duplicates(),
        t.no_duplicates(),
        forall|a: A| s.contains(a) <==> t.contains(a),
    ensures
        s.to_multiset() == t.to_multiset(),
{
    broadcast use vstd::seq_lib::group_to_multiset_ensures;

    s.lemma_multiset_has_no_duplicates();
    t.lemma_multiset_has_no_duplicates();
    assert forall|a: A| s.to_multiset().count(a) == t.to_multiset().count(a) by {
        assert(s.contains(a) <==> s.to_multiset().count(a) > 0);
        assert(t.contains(a) <==> t.to_multiset().count(a) > 0);
        if s.contains(a) {
            assert(s.to_multiset().contains(a));
            assert(t.to_multiset().contains(a));
        }
    }
    assert(s.to_multiset() =~= t.to_multiset());
}

/// The sum of what the values of a sequence contribute.
pub open spec fn sum_of<A>(s: Seq<A>, f: spec_fn(A) -> nat) -> nat
    decreases s.len(),
{
    if s.len() == 0 {
        0
    } else {
        sum_of(s.drop_last(), f) + f(s.last())
    }
}

proof fn lemma_sum_add<A>(s: Seq<A>, t: Seq<A>, f: spec_fn(A) -> nat)
    ensures
        sum_of(s + t, f) == sum_of(s, f) + sum_of(t, f),
    decreases t.len(),
{
    if t.len() == 0 {
        assert(s + t =~= s);
    } else {
        lemma_sum_add(s, t.drop_last(), f);
        assert((s + t).drop_last() =~= s + t.drop_last());
    }
}

proof fn lemma_sum_remove<A>(s: Seq<A>, k: int, f: spec_fn(A) -> nat)
    requires
        0 <= k < s.len(),
    ensures
        sum_of(s, f) == sum_of(s.remove(k), f) + f(s[k]),
{
    let a = s.take(k);
    let b = s.skip(k + 1);
    assert(s =~= a.push(s[k]) + b);
    assert(s.remove(k) =~= a + b);
    lemma_sum_add(a.push(s[k]), b, f);
    lemma_sum_add(a, b, f);
    assert(a.push(s[k]).drop_last() =~= a);
}

/// A sum does not depend on the order.
pub proof fn lemma_sum_permutation<A>(s: Seq<A>, t: Seq<A>, f: spec_fn(A) -> nat)
    requires
        s.to_multiset() == t.to_multiset(),
    ensures
        sum_of(s, f) == sum_of(t, f),
    decreases t.len(),
{
    broadcast use vstd::seq_lib::group_to_multiset_ensures;

    assert(s.len() == s.to_multiset().len());
    assert(t.len() == t.to_multiset().len());
    if t.len() > 0 {
        let n = t.len() - 1;
        assert(t.contains(t[n]));
        assert(s.to_multiset().count(t[n]) > 0);
        assert(s.contains(t[n]));
        let k = choose|k: int| 0 <= k < s.len() && s[k] == t[n];
        assert(s.remove(k).to_multiset() =~= t.remove(n).to_multiset());
        lemma_sum_permutation(s.remove(k), t.remove(n), f);
        lemma_sum_remove(s, k, f);
        lemma_sum_remove(t, n, f);
    }
}

/// A mapping yields as many values as there are values that it maps.
pub proof fn lemma_filter_map_count<A, B>(s: Seq<A>, f: spec_fn(A) -> Option<B>)
    ensures
        s.filter_map(f).len() == count_if(s, |a: A| f(a) is Some),
    decreases s.len(),
{
    if s.len() > 0 {
        lemma_filter_map_count(s.drop_last(), f);
    }
}

/// Of values that each stand once, no more satisfy a predicate in a sequence than another predicate
/// in one that holds all of them.
pub proof fn lemma_count_injected<A>(
    s: Seq<A>,
    t: Seq<A>,
    p: spec_fn(A) -> bool,
    q: spec_fn(A) -> bool,
)
    requires
        s.no_duplicates(),
        t.no_duplicates(),
        forall|a: A| s.contains(a) && p(a) ==> t.contains(a) && q(a),
    ensures
        count_if(s, p) <= count_if(t, q),
    decreases s.len(),
{
    if s.len() > 0 {
        let n = s.len() - 1;
        let x = s[n];
        let s1 = s.drop_last();
        assert(s.contains(x));
        assert forall|a: A| s1.contains(a) implies s.contains(a) && a != x by {
            let k = choose|k: int| 0 <= k < s1.len() && s1[k] == a;
            assert(s[k] == a);
        }
        if p(x) {
            let j = choose|j: int| 0 <= j < t.len() && t[j] == x;
            let t1 = t.remove(j);
            assert forall|a: A| s1.contains(a) && p(a) implies t1.contains(a) && q(a) by {
                assert(t.contains(a));
                let k = choose|k: int| 0 <= k < t.len() && t[k] == a;
                if k < j {
                    assert(t1[k] == a);
                } else {
                    assert(t1[k - 1] == a);
                }
            }
            lemma_count_injected(s1, t1, p, q);
            lemma_count_remove(t, j, q);
        } else {
            lemma_count_injected(s1, t, p, q);
        }
    }
}

/// Tests that agree on every value keep the same values.
pub proof fn lemma_filter_same<A>(s: Seq<A>, p: spec_fn(A) -> bool, q: spec_fn(A) -> bool)
    requires
        forall|x: A| s.contains(x) ==> (#[trigger] p(x) == q(x)),
    ensures
        s.filter(p) == s.filter(q),
    decreases s.len(),
{
    reveal(Seq::filter);
    if s.len() > 0 {
        let t = s.drop_last();
        assert forall|x: A| t.contains(x) implies (#[trigger] p(x) == q(x)) by {
            let k = choose|k: int| 0 <= k < t.len() && t[k] == x;
            assert(s[k] == x);
        }
        lemma_filter_same(t, p, q);
        assert(s[s.len() - 1] == s.last());
        assert(s.contains(s.last()));
        assert(p(s.last()) == q(s.last()));
    }
}

/// As many values are mapped to as there are values that map to one.
pub proof fn lemma_filter_map_number<A, B>(s: Seq<A>, f: spec_fn(A) -> Option<B>)
    ensures
        s.filter_map(f).len() == s.filter(|a: A| f(a) is Some).len(),
    decreases s.len(),
{
    reveal(Seq::filter);
    if s.len() > 0 {
        lemma_filter_map_number(s.drop_last(), f);
    }
}

/// Two tests one after the other are one test for both.
pub proof fn lemma_filter_filter<A>(s: Seq<A>, p: spec_fn(A) -> bool, q: spec_fn(A) -> bool)
    ensures
        s.filter(p).filter(q) == s.filter(|a: A| p(a) && q(a)),
    decreases s.len(),
{
    reveal(Seq::filter);
    if s.len() > 0 {
        lemma_filter_filter(s.drop_last(), p, q);
        let front = s.drop_last().filter(p);
        if p(s.last()) {
            assert(front.push(s.last()).drop_last() =~= front);
        }
    } else {
        assert(s.filter(p).filter(q) =~= s.filter(|a: A| p(a) && q(a)));
    }
}

/// A test on a concatenation.
pub proof fn lemma_filter_add<A>(s: Seq<A>, t: Seq<A>, p: spec_fn(A) -> bool)
    ensures
        (s + t).filter(p) == s.filter(p) + t.filter(p),
    decreases t.len(),
{
    reveal(Seq::filter);
    if t.len() == 0 {
        assert(s + t =~= s);
        assert(s.filter(p) + t.filter(p) =~= s.filter(p));
    } else {
        lemma_filter_add(s, t.drop_last(), p);
        assert((s + t).drop_last() =~= s + t.drop_last());
        assert((s + t).filter(p) =~= s.filter(p) + t.filter(p));
    }
}

/// What a filter keeps stays in order.
pub proof fn lemma_filter_in_order<A>(
    s: Seq<A>,
    before: spec_fn(A, A) -> bool,
    p: spec_fn(A) -> bool,
)
    requires
        in_order(s, before),
    ensures
        in_order(s.filter(p), before),
    decreases s.len(),
{
    reveal(Seq::filter);
    if s.len() > 0 {
        let t = s.drop_last();
        assert forall|i: int, j: int|
            #![trigger t[i], t[j]]
            0 <= i < j < t.len() implies before(t[i], t[j]) by {
            assert(t[i] == s[i] && t[j] == s[j]);
        }
        lemma_filter_in_order(t, before, p);
        let f = t.filter(p);
        if p(s.last()) {
            let r = f.push(s.last());
            assert forall|i: int, j: int|
                #![trigger r[i], r[j]]
                0 <= i < j < r.len() implies before(r[i], r[j]) by {
                assert(r[i] == f[i]);
                if j < f.len() {
                    assert(r[j] == f[j]);
                } else {
                    assert(f.contains(f[i]));
                    lemma_filter_contains(t, p, f[i]);
                    let k = choose|k: int| 0 <= k < t.len() && t[k] == f[i];
                    assert(s[k] == t[k]);
                    assert(s[s.len() - 1] == r[j]);
                }
            }
        }
    }
}

} // verus!

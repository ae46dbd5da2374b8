//! Partition of items into classes of items that share a key.

use crate::permutation;
use vstd::prelude::*;

verus! {

/// A way to classify items: which ones take part, and by what key.
pub trait Classifier<T> {
    /// What the items of one class share.
    type Key;

    /// Whether the classifier can judge an item.
    spec fn judges(&self, item: T) -> bool;

    /// Whether an item takes part.
    spec fn included(&self, item: T) -> bool;

    /// The key of an item.
    spec fn key(&self, item: T) -> Self::Key;

    /// Whether an item takes part.
    fn includes(&self, item: &T) -> (r: bool)
        requires
            self.judges(*item),
        ensures
            r == self.included(*item),
    ;

    /// Whether two items share their key.
    fn same_key(&self, a: &T, b: &T) -> (r: bool)
        requires
            self.judges(*a),
            self.judges(*b),
        ensures
            r == (self.key(*a) == self.key(*b)),
    ;
}

/// The keys of the items that take part, in order of first occurrence.
pub open spec fn classes<T, G: Classifier<T>>(g: G, items: Seq<T>) -> Seq<G::Key>
    decreases items.len(),
{
    if items.len() == 0 {
        Seq::empty()
    } else {
        let rest = classes(g, items.drop_last());
        let s = items.last();
        if g.included(s) && !rest.contains(g.key(s)) {
            rest.push(g.key(s))
        } else {
            rest
        }
    }
}

/// Whether an item takes part and has the key `k`.
pub open spec fn in_class<T, G: Classifier<T>>(g: G, k: G::Key) -> spec_fn(T) -> bool {
    |x: T| g.included(x) && g.key(x) == k
}

/// The items of one class, in order.
pub open spec fn class_members<T, G: Classifier<T>>(
    g: G,
    items: Seq<T>,
    k: G::Key,
) -> Seq<T> {
    items.filter(in_class(g, k))
}

/// The classes, in order of first occurrence, each with its items in order.
pub open spec fn groups<T, G: Classifier<T>>(g: G, items: Seq<T>) -> Seq<
    Seq<T>,
> {
    classes(g, items).map_values(|k: G::Key| class_members(g, items, k))
}

/// The items at the given positions.
pub open spec fn at_positions<T>(items: Seq<T>, idx: Seq<usize>) -> Seq<T> {
    idx.map_values(|i: usize| items[i as int])
}

/// Whether positions are those of distinct items, in ascending order.
pub open spec fn ascending_positions(idx: Seq<usize>, n: nat) -> bool {
    &&& forall|k: int| 0 <= k < idx.len() ==> #[trigger] idx[k] < n
    &&& forall|j: int, k: int| 0 <= j < k < idx.len() ==> idx[j] < idx[k]
}

/// No key is listed twice.
pub proof fn lemma_classes_distinct<T, G: Classifier<T>>(g: G, items: Seq<T>)
    ensures
        classes(g, items).no_duplicates(),
    decreases items.len(),
{
    if items.len() > 0 {
        lemma_classes_distinct(g, items.drop_last());
        let rest = classes(g, items.drop_last());
        let s = items.last();
        if g.included(s) && !rest.contains(g.key(s)) {
            let r = rest.push(g.key(s));
            assert forall|i: int, j: int|
                0 <= i < r.len() && 0 <= j < r.len() && i != j implies r[i] != r[j] by {
                if i < rest.len() {
                    assert(rest.contains(rest[i]));
                }
                if j < rest.len() {
                    assert(rest.contains(rest[j]));
                }
            }
        }
    }
}

/// A key is listed if and only if an item that takes part has it.
pub proof fn lemma_class_listed<T, G: Classifier<T>>(g: G, items: Seq<T>, k: G::Key)
    ensures
        classes(g, items).contains(k) <==> exists|i: int|
            0 <= i < items.len() && g.included(#[trigger] items[i]) && g.key(items[i]) == k,
    decreases items.len(),
{
    if items.len() > 0 {
        let t = items.drop_last();
        lemma_class_listed(g, t, k);
        let rest = classes(g, t);
        let s = items.last();
        let all = classes(g, items);
        if g.included(s) && !rest.contains(g.key(s)) {
            assert(all == rest.push(g.key(s)));
            assert(all[rest.len() as int] == g.key(s));
            if rest.contains(k) {
                let m = choose|m: int| 0 <= m < rest.len() && rest[m] == k;
                assert(all[m] == k);
            }
            if all.contains(k) && k != g.key(s) {
                let m = choose|m: int| 0 <= m < all.len() && all[m] == k;
                assert(rest[m] == k);
            }
        }
        if exists|i: int| 0 <= i < t.len() && g.included(#[trigger] t[i]) && g.key(t[i]) == k {
            let i = choose|i: int|
                0 <= i < t.len() && g.included(#[trigger] t[i]) && g.key(t[i]) == k;
            assert(items[i] == t[i]);
        }
        if exists|i: int|
            0 <= i < items.len() && g.included(#[trigger] items[i]) && g.key(items[i]) == k {
            let i = choose|i: int|
                0 <= i < items.len() && g.included(#[trigger] items[i]) && g.key(items[i]) == k;
            if i < t.len() {
                assert(t[i] == items[i]);
            } else {
                assert(items[i] == s);
            }
        }
        if g.included(s) && g.key(s) == k {
            assert(items[items.len() - 1] == s);
        }
    }
}

/// What holds of every item in a class.
pub proof fn lemma_class_members<T, G: Classifier<T>>(g: G, items: Seq<T>, k: G::Key)
    ensures
        class_members(g, items, k).len() <= items.len(),
        forall|i: int|
            0 <= i < class_members(g, items, k).len() ==> g.included(
                #[trigger] class_members(g, items, k)[i],
            ) && g.key(class_members(g, items, k)[i]) == k,
        classes(g, items).contains(k) <==> class_members(g, items, k).len() > 0,
    decreases items.len(),
{
    reveal(Seq::filter);
    lemma_class_listed(g, items, k);
    if items.len() > 0 {
        let t = items.drop_last();
        lemma_class_members(g, t, k);
        lemma_class_listed(g, t, k);
        if exists|i: int|
            0 <= i < items.len() && g.included(#[trigger] items[i]) && g.key(items[i]) == k {
            let i = choose|i: int|
                0 <= i < items.len() && g.included(#[trigger] items[i]) && g.key(items[i]) == k;
            if i < t.len() {
                assert(t[i] == items[i]);
            }
        }
        if exists|i: int| 0 <= i < t.len() && g.included(#[trigger] t[i]) && g.key(t[i]) == k {
            let i = choose|i: int|
                0 <= i < t.len() && g.included(#[trigger] t[i]) && g.key(t[i]) == k;
            assert(items[i] == t[i]);
        }
        if g.included(items.last()) && g.key(items.last()) == k {
            assert(items[items.len() - 1] == items.last());
        }
    }
}

proof fn lemma_members_step<T, G: Classifier<T>>(g: G, items: Seq<T>, i: int, k: G::Key)
    requires
        0 <= i < items.len(),
    ensures
        class_members(g, items.take(i + 1), k) == (if g.included(items[i]) && g.key(items[i])
            == k {
            class_members(g, items.take(i), k).push(items[i])
        } else {
            class_members(g, items.take(i), k)
        }),
{
    reveal(Seq::filter);
    assert(items.take(i + 1).drop_last() =~= items.take(i));
}

/// Partition the items that take part into their classes; each class is given by the positions of
/// its items.
pub fn group_items<T, G: Classifier<T>>(g: &G, items: &Vec<T>) -> (r: Vec<Vec<usize>>)
    requires
        forall|i: int| 0 <= i < items@.len() ==> g.judges(#[trigger] items@[i]),
    ensures
        r@.len() == groups(*g, items@).len(),
        forall|k: int|
            0 <= k < r@.len() ==> at_positions(items@, (#[trigger] r@[k])@) == groups(
                *g,
                items@,
            )[k],
        forall|k: int|
            0 <= k < r@.len() ==> ascending_positions((#[trigger] r@[k])@, items@.len())
                && r@[k]@.len() > 0,
{
    let mut out: Vec<Vec<usize>> = Vec::new();
    let mut i: usize = 0;
    while i < items.len()
        invariant
            forall|i: int| 0 <= i < items@.len() ==> g.judges(#[trigger] items@[i]),
            i <= items@.len(),
            out@.len() == classes(*g, items@.take(i as int)).len(),
            forall|k: int|
                0 <= k < out@.len() ==> at_positions(items@, (#[trigger] out@[k])@)
                    == class_members(
                    *g,
                    items@.take(i as int),
                    classes(*g, items@.take(i as int))[k],
                ),
            forall|k: int|
                0 <= k < out@.len() ==> ascending_positions((#[trigger] out@[k])@, i as nat)
                    && out@[k]@.len() > 0,
        decreases items@.len() - i,
    {
        let ghost seen = items@.take(i as int);
        let ghost next = items@.take(i + 1);
        let ghost keys = classes(*g, seen);
        let ghost s = items@[i as int];
        let ghost before = out@;
        proof {
            assert(next.drop_last() =~= seen);
            assert(next.last() == s);
            assert forall|k: int| 0 <= k < keys.len() implies g.key(
                items@[(#[trigger] before[k])@[0] as int],
            ) == keys[k] by {
                lemma_class_members(*g, seen, keys[k]);
                assert(at_positions(items@, before[k]@)[0] == items@[before[k]@[0] as int]);
            }
        }
        if g.includes(&items[i]) {
            let mut k: usize = 0;
            while k < out.len() && !g.same_key(&items[out[k][0]], &items[i])
                invariant
                    forall|i: int| 0 <= i < items@.len() ==> g.judges(#[trigger] items@[i]),
                    i < items@.len(),
                    k <= out@.len(),
                    out@ == before,
                    out@.len() == keys.len(),
                    forall|m: int|
                        0 <= m < out@.len() ==> ascending_positions((#[trigger] out@[m])@, i as nat)
                            && out@[m]@.len() > 0,
                    forall|m: int|
                        0 <= m < keys.len() ==> g.key(items@[(#[trigger] before[m])@[0] as int])
                            == keys[m],
                    forall|m: int| 0 <= m < k ==> keys[m] != g.key(items@[i as int]),
                decreases out@.len() - k,
            {
                assert(keys[k as int] == g.key(items@[before[k as int]@[0] as int]));
                k += 1;
            }
            if k < out.len() {
                let mut members = out[k].clone();
                members.push(i);
                out.set(k, members);
                proof {
                    lemma_classes_distinct(*g, seen);
                    assert(keys[k as int] == g.key(s));
                    assert(keys.contains(g.key(s)));
                    assert(classes(*g, next) == keys);
                    assert forall|m: int| 0 <= m < out@.len() implies at_positions(
                        items@,
                        (#[trigger] out@[m])@,
                    ) == class_members(*g, next, keys[m]) by {
                        lemma_members_step(*g, items@, i as int, keys[m]);
                        if m == k {
                            assert(at_positions(items@, out@[m]@) =~= at_positions(
                                items@,
                                before[m]@,
                            ).push(s));
                        } else {
                            assert(out@[m] == before[m]);
                        }
                    }
                }
            } else {
                let mut members: Vec<usize> = Vec::new();
                members.push(i);
                out.push(members);
                proof {
                    if keys.contains(g.key(s)) {
                        let m = choose|m: int| 0 <= m < keys.len() && keys[m] == g.key(s);
                        assert(false);
                    }
                    let grown = classes(*g, next);
                    assert(grown == keys.push(g.key(s)));
                    assert forall|m: int| 0 <= m < out@.len() implies at_positions(
                        items@,
                        (#[trigger] out@[m])@,
                    ) == class_members(*g, next, grown[m]) by {
                        lemma_members_step(*g, items@, i as int, grown[m]);
                        if m == keys.len() {
                            lemma_class_members(*g, seen, g.key(s));
                            assert(class_members(*g, seen, g.key(s)) =~= Seq::empty());
                            assert(at_positions(items@, out@[m]@) =~= seq![s]);
                            assert(class_members(*g, next, grown[m]) =~= seq![s]);
                        } else {
                            assert(out@[m] == before[m]);
                            assert(grown[m] == keys[m]);
                            assert(keys.contains(keys[m]));
                        }
                    }
                }
            }
        } else {
            proof {
                assert(classes(*g, next) == keys);
                assert forall|m: int| 0 <= m < out@.len() implies at_positions(
                    items@,
                    (#[trigger] out@[m])@,
                ) == class_members(*g, next, keys[m]) by {
                    lemma_members_step(*g, items@, i as int, keys[m]);
                }
            }
        }
        i += 1;
    }
    proof {
        assert(items@.take(i as int) =~= items@);
    }
    out
}

/// What is made of the classes is what is made of one that has members.
pub proof fn lemma_made_of_classes<T, G: Classifier<T>, B>(
    g: G,
    items: Seq<T>,
    f: spec_fn(Seq<T>) -> Option<B>,
    b: B,
)
    ensures
        groups(g, items).filter_map(f).contains(b) <==> exists|k: G::Key|
            #![trigger class_members(g, items, k)]
            class_members(g, items, k).len() > 0 && f(class_members(g, items, k)) == Some(b),
{
    let keys = classes(g, items);
    let all = groups(g, items);
    permutation::lemma_filter_map_contains(all, f, b);
    if all.filter_map(f).contains(b) {
        let m = choose|m: int| 0 <= m < all.len() && f(#[trigger] all[m]) == Some(b);
        assert(keys.contains(keys[m]));
        lemma_class_members(g, items, keys[m]);
        assert(all[m] == class_members(g, items, keys[m]));
    }
    if exists|k: G::Key|
        #![trigger class_members(g, items, k)]
        class_members(g, items, k).len() > 0 && f(class_members(g, items, k)) == Some(b) {
        let k = choose|k: G::Key|
            #![trigger class_members(g, items, k)]
            class_members(g, items, k).len() > 0 && f(class_members(g, items, k)) == Some(b);
        lemma_class_members(g, items, k);
        let m = choose|m: int| 0 <= m < keys.len() && keys[m] == k;
        assert(all[m] == class_members(g, items, k));
    }
}

/// Whether an item takes part and is the first one with its key.
pub open spec fn leads<T, G: Classifier<T>>(g: G, items: Seq<T>, i: int) -> bool {
    g.included(items[i]) && forall|j: int|
        0 <= j < i && g.included(#[trigger] items[j]) ==> g.key(items[j]) != g.key(items[i])
}

/// The first `n` positions.
pub open spec fn positions(n: nat) -> Seq<int> {
    Seq::new(n, |i: int| i)
}

proof fn lemma_classes_led<T, G: Classifier<T>>(g: G, items: Seq<T>)
    ensures
        classes(g, items) == positions(items.len()).filter(
            |i: int| leads(g, items, i),
        ).map_values(|i: int| g.key(items[i])),
    decreases items.len(),
{
    reveal(Seq::filter);
    let lead = |i: int| leads(g, items, i);
    let key = |i: int| g.key(items[i]);
    let all = positions(items.len());
    if items.len() == 0 {
        assert(all.filter(lead).map_values(key) =~= Seq::empty());
    } else {
        let t = items.drop_last();
        let n = items.len() - 1;
        let lead_t = |i: int| leads(g, t, i);
        let key_t = |i: int| g.key(t[i]);
        lemma_classes_led(g, t);
        assert(all.drop_last() =~= positions(t.len()));
        assert forall|i: int| positions(t.len()).contains(i) implies (#[trigger] lead_t(i) == lead(
            i,
        )) by {
            assert(0 <= i < t.len());
            assert(t[i] == items[i]);
            assert forall|j: int| 0 <= j < i implies t[j] == items[j] by {}
            if leads(g, t, i) {
                assert forall|j: int| 0 <= j < i && g.included(#[trigger] items[j]) implies g.key(
                    items[j],
                ) != g.key(items[i]) by {
                    assert(t[j] == items[j]);
                }
            }
            if leads(g, items, i) {
                assert forall|j: int| 0 <= j < i && g.included(#[trigger] t[j]) implies g.key(t[j])
                    != g.key(t[i]) by {
                    assert(t[j] == items[j]);
                }
            }
        }
        permutation::lemma_filter_same(positions(t.len()), lead_t, lead);
        let front = positions(t.len()).filter(lead);
        assert(front.map_values(key_t) =~= front.map_values(key)) by {
            assert forall|m: int| 0 <= m < front.len() implies key_t(front[m]) == key(front[m]) by {
                assert(front.contains(front[m]));
                permutation::lemma_filter_contains(positions(t.len()), lead, front[m]);
                let i = front[m];
                assert(positions(t.len()).contains(i));
                assert(t[i] == items[i]);
            }
        }
        lemma_class_listed(g, t, g.key(items.last()));
        assert(all.last() == n);
        assert(lead(n) <==> g.included(items.last()) && !classes(g, t).contains(
            g.key(items.last()),
        )) by {
            if g.included(items.last()) {
                if lead(n) && classes(g, t).contains(g.key(items.last())) {
                    let j = choose|j: int|
                        0 <= j < t.len() && g.included(#[trigger] t[j]) && g.key(t[j]) == g.key(
                            items.last(),
                        );
                    assert(items[j] == t[j]);
                }
                if !lead(n) {
                    let j = choose|j: int|
                        0 <= j < n && g.included(#[trigger] items[j]) && g.key(items[j]) == g.key(
                            items[n],
                        );
                    assert(t[j] == items[j]);
                }
            }
        }
        assert(all.filter(lead).map_values(key) =~= classes(g, items));
    }
}

/// There is one result for each class from which one is made: as many as there are first items of
/// such classes.
pub proof fn lemma_number_made_of_classes<T, G: Classifier<T>, B>(
    g: G,
    items: Seq<T>,
    f: spec_fn(Seq<T>) -> Option<B>,
)
    ensures
        groups(g, items).filter_map(f).len() == positions(items.len()).filter(
            |i: int|
                leads(g, items, i) && f(class_members(g, items, g.key(items[i]))) is Some,
        ).len(),
{
    let all = positions(items.len());
    let lead = |i: int| leads(g, items, i);
    let key = |i: int| g.key(items[i]);
    let members = |k: G::Key| class_members(g, items, k);
    let made = |i: int| f(members(key(i)));
    let both = |i: int| leads(g, items, i) && f(class_members(g, items, g.key(items[i]))) is Some;
    lemma_classes_led(g, items);
    let front = all.filter(lead);
    permutation::lemma_filter_map_of_map(front.map_values(key), members, f);
    permutation::lemma_filter_map_of_map(front, key, |k: G::Key| f(members(k)));
    permutation::lemma_filter_map_same(front, |i: int| (|k: G::Key| f(members(k)))(key(i)), made);
    permutation::lemma_filter_map_number(front, made);
    permutation::lemma_filter_filter(all, lead, |i: int| made(i) is Some);
    permutation::lemma_filter_same(all, |i: int| lead(i) && (|i: int| made(i) is Some)(i), both);
}

/// Classes are listed by first occurrence: an item of the earlier class stands before the first item
/// of the later one.
pub proof fn law_classes_go_by_first_occurrence<T, G: Classifier<T>>(
    g: G,
    items: Seq<T>,
    a: int,
    b: int,
) -> (r: (int, int))
    requires
        0 <= a < b < classes(g, items).len(),
    ensures
        0 <= r.0 < r.1 < items.len(),
        g.included(items[r.0]) && g.key(items[r.0]) == classes(g, items)[a],
        g.included(items[r.1]) && g.key(items[r.1]) == classes(g, items)[b],
        forall|m: int|
            0 <= m < r.1 && g.included(#[trigger] items[m]) ==> g.key(items[m]) != classes(
                g,
                items,
            )[b],
    decreases items.len(),
{
    let t = items.drop_last();
    let rest = classes(g, t);
    let n = items.len() - 1;
    if b < rest.len() {
        let r = law_classes_go_by_first_occurrence(g, t, a, b);
        assert forall|m: int| 0 <= m < r.1 && g.included(#[trigger] items[m]) implies g.key(
            items[m],
        ) != classes(g, items)[b] by {
            assert(t[m] == items[m]);
        }
        assert(t[r.0] == items[r.0] && t[r.1] == items[r.1]);
        r
    } else {
        lemma_class_listed(g, t, rest[a]);
        assert(rest.contains(rest[a]));
        let i = choose|i: int|
            0 <= i < t.len() && g.included(#[trigger] t[i]) && g.key(t[i]) == rest[a];
        assert(t[i] == items[i]);
        let k = g.key(items[n]);
        lemma_class_listed(g, t, k);
        assert forall|m: int| 0 <= m < n && g.included(#[trigger] items[m]) implies g.key(items[m])
            != k by {
            assert(t[m] == items[m]);
        }
        (i, n)
    }
}

} // verus!

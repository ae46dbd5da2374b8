//! What the detectors measure on a group of spans.

use crate::detect::grouping;
use crate::event;
use crate::event::{EventType, NormalizedEvent};
use crate::text;
use crate::time;
use vstd::prelude::*;

verus! {

/// The timestamps of a group.
pub open spec fn timestamps(group: Seq<NormalizedEvent>) -> Seq<Seq<char>> {
    group.map_values(|s: NormalizedEvent| s.event.timestamp@)
}

/// The least of some texts; the empty one when there is none.
pub open spec fn earliest(ts: Seq<Seq<char>>) -> Seq<char>
    decreases ts.len(),
{
    if ts.len() == 0 {
        Seq::empty()
    } else if ts.len() == 1 {
        ts[0]
    } else {
        let m = earliest(ts.drop_last());
        if text::text_lt(ts.last(), m) {
            ts.last()
        } else {
            m
        }
    }
}

/// The greatest of some texts; the empty one when there is none.
pub open spec fn latest(ts: Seq<Seq<char>>) -> Seq<char>
    decreases ts.len(),
{
    if ts.len() == 0 {
        Seq::empty()
    } else if ts.len() == 1 {
        ts[0]
    } else {
        let m = latest(ts.drop_last());
        if text::text_lt(m, ts.last()) {
            ts.last()
        } else {
            m
        }
    }
}

/// The milliseconds from the earliest to the latest of some timestamps: zero when there are fewer
/// than two, when one of the two bounds is no timestamp, or when they are not in order of time.
pub open spec fn window(ts: Seq<Seq<char>>) -> u64 {
    if ts.len() < 2 {
        0
    } else {
        match (time::timestamp_ms(earliest(ts)), time::timestamp_ms(latest(ts))) {
            (Some(a), Some(b)) => if b > a {
                (b - a) as u64
            } else {
                0
            },
            _ => 0,
        }
    }
}

/// The number of distinct values in a sequence.
pub open spec fn distinct<A>(s: Seq<A>) -> nat {
    s.to_set().len()
}

/// The parameters of each span of a group.
pub open spec fn param_lists(group: Seq<NormalizedEvent>) -> Seq<Seq<Seq<char>>> {
    group.map_values(|s: NormalizedEvent| event::texts(s.params@))
}

/// How many distinct parameter lists a group has.
pub open spec fn distinct_params(group: Seq<NormalizedEvent>) -> nat {
    distinct(param_lists(group))
}

/// The earliest of some texts is one of them, and none precedes it.
pub proof fn lemma_earliest(ts: Seq<Seq<char>>)
    requires
        ts.len() > 0,
    ensures
        ts.contains(earliest(ts)),
        forall|i: int| 0 <= i < ts.len() ==> !text::text_lt(#[trigger] ts[i], earliest(ts)),
    decreases ts.len(),
{
    if ts.len() == 1 {
        text::lemma_text_lt_irreflexive(ts[0]);
    } else {
        let t = ts.drop_last();
        lemma_earliest(t);
        let m = earliest(t);
        let k = choose|k: int| 0 <= k < t.len() && t[k] == m;
        assert(ts[k] == m);
        assert(ts[ts.len() - 1] == ts.last());
        assert forall|i: int| 0 <= i < ts.len() implies !text::text_lt(
            #[trigger] ts[i],
            earliest(ts),
        ) by {
            if i < t.len() {
                assert(t[i] == ts[i]);
                if text::text_lt(ts.last(), m) && text::text_lt(ts[i], ts.last()) {
                    text::lemma_text_lt_transitive(ts[i], ts.last(), m);
                }
            } else {
                text::lemma_text_lt_irreflexive(ts.last());
            }
        }
    }
}

/// The latest of some texts is one of them, and it precedes none.
pub proof fn lemma_latest(ts: Seq<Seq<char>>)
    requires
        ts.len() > 0,
    ensures
        ts.contains(latest(ts)),
        forall|i: int| 0 <= i < ts.len() ==> !text::text_lt(latest(ts), #[trigger] ts[i]),
    decreases ts.len(),
{
    if ts.len() == 1 {
        text::lemma_text_lt_irreflexive(ts[0]);
    } else {
        let t = ts.drop_last();
        lemma_latest(t);
        let m = latest(t);
        let k = choose|k: int| 0 <= k < t.len() && t[k] == m;
        assert(ts[k] == m);
        assert(ts[ts.len() - 1] == ts.last());
        assert forall|i: int| 0 <= i < ts.len() implies !text::text_lt(
            latest(ts),
            #[trigger] ts[i],
        ) by {
            if i < t.len() {
                assert(t[i] == ts[i]);
                if text::text_lt(m, ts.last()) && text::text_lt(ts.last(), ts[i]) {
                    text::lemma_text_lt_transitive(m, ts.last(), ts[i]);
                }
            } else {
                text::lemma_text_lt_irreflexive(ts.last());
            }
        }
    }
}

/// Adding a value to a sequence adds to the distinct ones exactly when it is new.
pub proof fn lemma_distinct_push<A>(s: Seq<A>, x: A)
    ensures
        distinct(s.push(x)) == (if s.contains(x) {
            distinct(s)
        } else {
            distinct(s) + 1
        }),
{
    broadcast use vstd::seq_lib::seq_to_set_is_finite;

    assert(s.push(x).to_set() =~= s.to_set().insert(x)) by {
        assert forall|y: A| s.push(x).to_set().contains(y) <==> s.to_set().insert(x).contains(
            y,
        ) by {
            if s.push(x).contains(y) {
                let k = choose|k: int| 0 <= k < s.push(x).len() && s.push(x)[k] == y;
                if k < s.len() {
                    assert(s[k] == y);
                }
            }
            if s.contains(y) {
                let k = choose|k: int| 0 <= k < s.len() && s[k] == y;
                assert(s.push(x)[k] == y);
            }
            assert(s.push(x)[s.len() as int] == x);
        }
    }
}

/// There are no more distinct values than values.
pub proof fn lemma_distinct_bound<A>(s: Seq<A>)
    ensures
        distinct(s) <= s.len(),
        s.len() > 0 ==> distinct(s) > 0,
    decreases s.len(),
{
    if s.len() > 0 {
        lemma_distinct_bound(s.drop_last());
        lemma_distinct_push(s.drop_last(), s.last());
        assert(s =~= s.drop_last().push(s.last()));
        if distinct(s) == 0 {
            assert(s.drop_last().contains(s.last()));
        }
    } else {
        assert(s.to_set() =~= Set::empty());
    }
}

/// The time window in milliseconds and the earliest and latest timestamp.
pub fn compute_window_and_bounds<'a>(timestamps: &[&'a str]) -> (r: (u64, &'a str, &'a str))
    ensures
        ({
            let ts = timestamps@.map_values(|t: &str| t@);
            &&& r.0 == window(ts)
            &&& r.1@ == earliest(ts)
            &&& r.2@ == latest(ts)
        }),
{
    let ghost ts = timestamps@.map_values(|t: &str| t@);
    if timestamps.len() == 0 {
        proof {
            reveal_strlit("");
            assert(""@ =~= Seq::<char>::empty());
        }
        return (0, "", "");
    }
    let mut min_ts: &'a str = timestamps[0];
    let mut max_ts: &'a str = timestamps[0];
    let mut i: usize = 1;
    assert(ts.take(1) =~= seq![ts[0]]);
    while i < timestamps.len()
        invariant
            1 <= i <= timestamps@.len(),
            ts == timestamps@.map_values(|t: &str| t@),
            min_ts@ == earliest(ts.take(i as int)),
            max_ts@ == latest(ts.take(i as int)),
        decreases timestamps@.len() - i,
    {
        let t: &'a str = timestamps[i];
        proof {
            assert(ts.take(i + 1).drop_last() =~= ts.take(i as int));
            assert(ts.take(i + 1).last() == t@);
        }
        if text::precedes(t, min_ts) {
            min_ts = t;
        }
        if text::precedes(max_ts, t) {
            max_ts = t;
        }
        i += 1;
    }
    assert(ts.take(i as int) =~= ts);
    if timestamps.len() == 1 {
        return (0, min_ts, max_ts);
    }
    let window_ms: u64 = match (
        time::parse_iso8601_utc_to_ms(min_ts),
        time::parse_iso8601_utc_to_ms(max_ts),
    ) {
        (Some(a), Some(b)) => if b > a {
            b - a
        } else {
            0
        },
        _ => 0,
    };
    (window_ms, min_ts, max_ts)
}

/// The timestamps of the spans at the given positions.
pub fn timestamps_at<'a>(spans: &'a Vec<NormalizedEvent>, indices: &Vec<usize>) -> (r: Vec<&'a str>)
    requires
        forall|k: int| 0 <= k < indices@.len() ==> #[trigger] indices@[k] < spans@.len(),
    ensures
        r@.map_values(|t: &str| t@) == timestamps(grouping::at_positions(spans@, indices@)),
{
    let mut out: Vec<&'a str> = Vec::new();
    let mut i: usize = 0;
    while i < indices.len()
        invariant
            i <= indices@.len(),
            out@.len() == i,
            forall|k: int| 0 <= k < indices@.len() ==> #[trigger] indices@[k] < spans@.len(),
            forall|k: int|
                0 <= k < i ==> (#[trigger] out@[k])@ == spans@[indices@[k] as int].event.timestamp@,
        decreases indices@.len() - i,
    {
        out.push(spans[indices[i]].event.timestamp.as_str());
        i += 1;
    }
    assert(out@.map_values(|t: &str| t@) =~= timestamps(
        grouping::at_positions(spans@, indices@),
    ));
    out
}

/// Whether two lists hold the same texts.
pub fn same_texts(a: &Vec<String>, b: &Vec<String>) -> (r: bool)
    ensures
        r == (event::texts(a@) == event::texts(b@)),
{
    if a.len() != b.len() {
        assert(event::texts(a@).len() != event::texts(b@).len());
        return false;
    }
    let mut i: usize = 0;
    while i < a.len()
        invariant
            i <= a@.len(),
            a@.len() == b@.len(),
            forall|k: int| 0 <= k < i ==> (#[trigger] a@[k])@ == b@[k]@,
        decreases a@.len() - i,
    {
        if a[i] != b[i] {
            assert(event::texts(a@)[i as int] != event::texts(b@)[i as int]);
            return false;
        }
        i += 1;
    }
    assert(event::texts(a@) =~= event::texts(b@));
    true
}

/// How many distinct parameter lists the spans at the given positions have.
pub fn count_distinct_params(spans: &Vec<NormalizedEvent>, indices: &Vec<usize>) -> (r: usize)
    requires
        forall|k: int| 0 <= k < indices@.len() ==> #[trigger] indices@[k] < spans@.len(),
    ensures
        r == distinct_params(grouping::at_positions(spans@, indices@)),
        r <= indices@.len(),
{
    let ghost lists = param_lists(grouping::at_positions(spans@, indices@));
    let mut count: usize = 0;
    let mut i: usize = 0;
    proof {
        lemma_distinct_bound(lists.take(0));
    }
    while i < indices.len()
        invariant
            i <= indices@.len(),
            forall|k: int| 0 <= k < indices@.len() ==> #[trigger] indices@[k] < spans@.len(),
            lists == param_lists(grouping::at_positions(spans@, indices@)),
            count == distinct(lists.take(i as int)),
            count <= i,
        decreases indices@.len() - i,
    {
        let mut j: usize = 0;
        while j < i && !same_texts(&spans[indices[j]].params, &spans[indices[i]].params)
            invariant
                j <= i < indices@.len(),
                forall|k: int| 0 <= k < indices@.len() ==> #[trigger] indices@[k] < spans@.len(),
                lists == param_lists(grouping::at_positions(spans@, indices@)),
                forall|k: int| 0 <= k < j ==> #[trigger] lists[k] != lists[i as int],
            decreases i - j,
        {
            j += 1;
        }
        proof {
            let seen = lists.take(i as int);
            lemma_distinct_push(seen, lists[i as int]);
            assert(lists.take(i + 1) =~= seen.push(lists[i as int]));
            if j < i {
                assert(seen[j as int] == lists[i as int]);
            } else if seen.contains(lists[i as int]) {
                let k = choose|k: int| 0 <= k < seen.len() && seen[k] == lists[i as int];
                assert(lists[k] == lists[i as int]);
            }
        }
        if j == i {
            count += 1;
        }
        i += 1;
    }
    assert(lists.take(i as int) =~= lists);
    count
}

/// The spans of a trace by kind of operation and template.
pub struct ByTemplate {}

impl grouping::Classifier<NormalizedEvent> for ByTemplate {
    type Key = (EventType, Seq<char>);

    open spec fn judges(&self, span: NormalizedEvent) -> bool {
        true
    }

    open spec fn included(&self, span: NormalizedEvent) -> bool {
        true
    }

    open spec fn key(&self, span: NormalizedEvent) -> (EventType, Seq<char>) {
        (span.event.event_type, span.template@)
    }

    fn includes(&self, span: &NormalizedEvent) -> (r: bool) {
        true
    }

    fn same_key(&self, a: &NormalizedEvent, b: &NormalizedEvent) -> (r: bool) {
        a.event.event_type == b.event.event_type && a.template == b.template
    }
}

/// Two spans have the same parameters if and only if their lists are equal element for element:
/// another span adds to the distinct parameter lists of a group exactly when its list, as a whole,
/// is none of the group's.
pub proof fn law_distinct_parameters_go_by_whole_lists(
    group: Seq<NormalizedEvent>,
    s: NormalizedEvent,
)
    ensures
        distinct_params(Seq::<NormalizedEvent>::empty()) == 0,
        distinct_params(group.push(s)) == distinct_params(group) + (if exists|j: int|
            0 <= j < group.len() && (#[trigger] group[j]).params@.len() == s.params@.len() && (
            forall|k: int|
                0 <= k < s.params@.len() ==> group[j].params@[k]@ == (#[trigger] s.params@[k])@) {
            0int
        } else {
            1int
        }),
{
    let lists = param_lists(group);
    let list = event::texts(s.params@);
    lemma_distinct_bound(param_lists(Seq::<NormalizedEvent>::empty()));
    assert(param_lists(group.push(s)) =~= lists.push(list));
    lemma_distinct_push(lists, list);
    if lists.contains(list) {
        let j = choose|j: int| 0 <= j < lists.len() && lists[j] == list;
        assert(event::texts(group[j].params@) == list);
        assert(group[j].params@.len() == s.params@.len());
        assert forall|k: int| 0 <= k < s.params@.len() implies group[j].params@[k]@ == (
        #[trigger] s.params@[k])@ by {
            assert(event::texts(group[j].params@)[k] == list[k]);
        }
    }
    if exists|j: int|
        0 <= j < group.len() && (#[trigger] group[j]).params@.len() == s.params@.len() && (forall|
            k: int,
        |
            0 <= k < s.params@.len() ==> group[j].params@[k]@ == (#[trigger] s.params@[k])@) {
        let j = choose|j: int|
            0 <= j < group.len() && (#[trigger] group[j]).params@.len() == s.params@.len() && (
            forall|k: int|
                0 <= k < s.params@.len() ==> group[j].params@[k]@ == (#[trigger] s.params@[k])@);
        assert(event::texts(group[j].params@) =~= list);
        assert(lists[j] == list);
    }
}

/// Spans of which no two have the same parameters have as many distinct parameter lists as there
/// are spans.
pub proof fn law_different_parameters_all_count(group: Seq<NormalizedEvent>)
    requires
        forall|i: int, j: int|
            #![trigger group[i], group[j]]
            0 <= i < j < group.len() ==> group[i].params@.len() != group[j].params@.len()
                || exists|k: int|
                0 <= k < group[i].params@.len() && (#[trigger] group[i].params@[k])@
                    != group[j].params@[k]@,
    ensures
        distinct_params(group) == group.len(),
    decreases group.len(),
{
    if group.len() == 0 {
        lemma_distinct_bound(param_lists(group));
    } else {
        let rest = group.drop_last();
        let s = group.last();
        assert forall|i: int, j: int|
            #![trigger rest[i], rest[j]]
            0 <= i < j < rest.len() implies rest[i].params@.len() != rest[j].params@.len()
            || exists|k: int|
            0 <= k < rest[i].params@.len() && (#[trigger] rest[i].params@[k])@
                != rest[j].params@[k]@ by {
            assert(group[i] == rest[i] && group[j] == rest[j]);
        }
        law_different_parameters_all_count(rest);
        law_distinct_parameters_go_by_whole_lists(rest, s);
        assert(rest.push(s) =~= group);
        if exists|j: int|
            0 <= j < rest.len() && (#[trigger] rest[j]).params@.len() == s.params@.len() && (
            forall|k: int|
                0 <= k < s.params@.len() ==> rest[j].params@[k]@ == (#[trigger] s.params@[k])@) {
            let j = choose|j: int|
                0 <= j < rest.len() && (#[trigger] rest[j]).params@.len() == s.params@.len() && (
                forall|k: int|
                    0 <= k < s.params@.len() ==> rest[j].params@[k]@ == (#[trigger] s.params@[
                    k])@);
            assert(group[j] == rest[j] && group[group.len() - 1] == s);
            let k = choose|k: int|
                0 <= k < rest[j].params@.len() && (#[trigger] rest[j].params@[k])@
                    != s.params@[k]@;
            assert(rest[j].params@[k]@ == s.params@[k]@);
        }
    }
}

/// The bounds of some timestamps are those that no other one precedes or follows as a text, and
/// the window is the time between them. Fewer than two timestamps have no window.
pub proof fn law_window_lies_between_the_extremes(ts: Seq<Seq<char>>, i: int, j: int)
    requires
        0 <= i < ts.len(),
        0 <= j < ts.len(),
        forall|k: int| 0 <= k < ts.len() ==> !text::text_lt(#[trigger] ts[k], ts[i]),
        forall|k: int| 0 <= k < ts.len() ==> !text::text_lt(ts[j], #[trigger] ts[k]),
    ensures
        earliest(ts) == ts[i],
        latest(ts) == ts[j],
        ts.len() == 1 ==> window(ts) == 0,
        time::timestamp_ms(ts[i]) is None || time::timestamp_ms(ts[j]) is None ==> window(ts) == 0,
        ts.len() > 1 && time::timestamp_ms(ts[i]) is Some && time::timestamp_ms(ts[j]) is Some
            && time::timestamp_ms(ts[i])->0 <= time::timestamp_ms(ts[j])->0 ==> window(ts)
            == time::timestamp_ms(ts[j])->0 - time::timestamp_ms(ts[i])->0,
        time::timestamp_ms(ts[i]) is Some && time::timestamp_ms(ts[j]) is Some
            && time::timestamp_ms(ts[i])->0 > time::timestamp_ms(ts[j])->0 ==> window(ts) == 0,
{
    lemma_earliest(ts);
    lemma_latest(ts);
    let a = choose|a: int| 0 <= a < ts.len() && ts[a] == earliest(ts);
    let b = choose|b: int| 0 <= b < ts.len() && ts[b] == latest(ts);
    text::lemma_text_lt_total(ts[a], ts[i]);
    text::lemma_text_lt_total(ts[b], ts[j]);
}

} // verus!

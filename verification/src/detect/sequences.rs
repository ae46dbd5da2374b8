//! What is reported on serialized calls, stated on the spans themselves.

use crate::detect::finding::{Confidence, FindingType, FindingView, PatternView, Severity};
use crate::detect::grouping;
use crate::detect::grouping::Classifier;
use crate::detect::indices;
use crate::detect::indices::SiblingPositions;
use crate::detect::measure;
use crate::detect::serialized;
use crate::detect::serialized::TimedSpan;
use crate::detect::slow;
use crate::event;
use crate::event::{GroupingAttribute, NormalizedEvent};
use crate::order;
use crate::permutation;
use crate::text;
use crate::time;
use vstd::prelude::*;

verus! {

/// A span starts at its timestamp and ends after the whole of its duration.
pub proof fn law_span_takes_its_whole_duration(spans: Seq<NormalizedEvent>, i: usize)
    ensures
        ({
            let e = spans[i as int].event;
            match serialized::timed_span(spans, i) {
                Some(t) => {
                    &&& time::timestamp_ms(e.timestamp@) == Some(t.start_ms)
                    &&& t.end_ms - t.start_ms == e.duration_us / 1000
                    &&& t.duration_us == e.duration_us
                    &&& t.span_idx == i
                },
                None => time::timestamp_ms(e.timestamp@) is None,
            }
        }),
{
    time::law_timestamps_end_with_the_year_9999(spans[i as int].event.timestamp@);
}

proof fn lemma_timed_apart(spans: Seq<NormalizedEvent>, children: Seq<usize>)
    requires
        permutation::pairwise(children, |a: usize, b: usize| a != b),
    ensures
        permutation::pairwise(
            serialized::timed_children(spans, children),
            |a: TimedSpan, b: TimedSpan| a.span_idx != b.span_idx,
        ),
    decreases children.len(),
{
    if children.len() > 0 {
        let rest = children.drop_last();
        assert forall|i: int, j: int|
            #![trigger rest[i], rest[j]]
            0 <= i < rest.len() && 0 <= j < rest.len() && i != j implies rest[i] != rest[j] by {
            assert(rest[i] == children[i] && rest[j] == children[j]);
        }
        lemma_timed_apart(spans, rest);
        let q = serialized::timed_children(spans, rest);
        let r = serialized::timed_children(spans, children);
        assert(r == (match serialized::timed_span(spans, children.last()) {
            Some(t) => q + seq![t],
            None => q,
        }));
        let f = |i: usize| serialized::timed_span(spans, i);
        assert forall|i: int, j: int|
            #![trigger r[i], r[j]]
            0 <= i < r.len() && 0 <= j < r.len() && i != j implies r[i].span_idx
            != r[j].span_idx by {
            if i < q.len() && j < q.len() {
                assert(r[i] == q[i] && r[j] == q[j]);
            } else {
                let m = if i < q.len() {
                    i
                } else {
                    j
                };
                assert(q[m] == r[m]);
                assert(q.contains(q[m]));
                permutation::lemma_filter_map_contains(rest, f, q[m]);
                let x = choose|x: int| 0 <= x < rest.len() && f(#[trigger] rest[x]) == Some(q[m]);
                assert(children[x] == rest[x]);
                assert(children[children.len() - 1] == children.last());
            }
        }
    }
}

/// The spans in order of their end: children of the parent whose timestamp can be read, each once.
proof fn lemma_by_end(spans: &Vec<NormalizedEvent>, parent: Seq<char>)
    ensures
        ({
            let children = grouping::class_members(
                SiblingPositions { spans },
                indices::first_positions(spans@.len()),
                Some(parent),
            );
            let timed = serialized::by_end(spans@, children);
            &&& order::is_ranked(timed)
            &&& timed.len() <= spans@.len() <= usize::MAX
            &&& forall|k: int|
                0 <= k < timed.len() ==> {
                    let t = #[trigger] timed[k];
                    let e = spans@[t.span_idx as int].event;
                    &&& t.span_idx < spans@.len()
                    &&& serialized::timed_span(spans@, t.span_idx) == Some(t)
                    &&& e.parent_span_id is Some && e.parent_span_id->0@ == parent
                }
            &&& forall|j: int, k: int|
                #![trigger timed[j], timed[k]]
                0 <= j < timed.len() && 0 <= k < timed.len() && j != k ==> timed[j].span_idx
                    != timed[k].span_idx
            &&& forall|i: int|
                0 <= i < spans@.len() && (#[trigger] spans@[i]).event.parent_span_id is Some
                    && spans@[i].event.parent_span_id->0@ == parent && time::timestamp_ms(
                    spans@[i].event.timestamp@,
                ) is Some ==> timed.contains(serialized::timed_span(spans@, i as usize)->0)
        }),
{
    let g = SiblingPositions { spans };
    let all = indices::first_positions(spans@.len());
    let inside = grouping::in_class(g, Some(parent));
    let children = grouping::class_members(g, all, Some(parent));
    let raw = serialized::timed_children(spans@, children);
    let timed = serialized::by_end(spans@, children);
    let f = |i: usize| serialized::timed_span(spans@, i);
    assert(spans.len() == spans@.len());
    order::lemma_ranked(raw);
    let differ = |a: usize, b: usize| a != b;
    assert(permutation::pairwise(all, differ));
    permutation::lemma_pairwise_filter(all, differ, inside);
    lemma_timed_apart(spans@, children);
    let apart = |a: TimedSpan, b: TimedSpan| a.span_idx != b.span_idx;
    permutation::lemma_pairwise_permutation(raw, timed, apart);
    permutation::lemma_filter_map_number(children, f);
    indices::lemma_children(spans, parent);
    assert(children.len() <= spans@.len()) by {
        all.lemma_filter_len(inside);
    }
    assert(raw.len() <= children.len()) by {
        children.lemma_filter_len(|a: usize| f(a) is Some);
    }
    assert forall|k: int| 0 <= k < timed.len() implies ({
        let t = #[trigger] timed[k];
        let e = spans@[t.span_idx as int].event;
        &&& t.span_idx < spans@.len()
        &&& serialized::timed_span(spans@, t.span_idx) == Some(t)
        &&& e.parent_span_id is Some && e.parent_span_id->0@ == parent
    }) by {
        let t = timed[k];
        assert(timed.contains(t));
        permutation::lemma_contains_permutation(timed, raw, t);
        permutation::lemma_filter_map_contains(children, f, t);
        let x = choose|x: int| 0 <= x < children.len() && f(#[trigger] children[x]) == Some(t);
        assert(children.contains(children[x]));
        permutation::lemma_filter_contains(all, inside, children[x]);
        assert(inside(children[x]));
    }
    assert forall|i: int|
        0 <= i < spans@.len() && (#[trigger] spans@[i]).event.parent_span_id is Some
            && spans@[i].event.parent_span_id->0@ == parent && time::timestamp_ms(
            spans@[i].event.timestamp@,
        ) is Some implies timed.contains(serialized::timed_span(spans@, i as usize)->0) by {
        assert(all[i] == i as usize);
        assert(inside(all[i]));
        permutation::lemma_filter_contains(all, inside, all[i]);
        let x = choose|x: int| 0 <= x < children.len() && children[x] == all[i];
        let t = serialized::timed_span(spans@, i as usize)->0;
        assert(f(children[x]) == Some(t));
        permutation::lemma_filter_map_contains(children, f, t);
        permutation::lemma_contains_permutation(raw, timed, t);
    }
}

proof fn lemma_calls(spans: Seq<NormalizedEvent>, chain: Seq<TimedSpan>, c: Seq<int>)
    requires
        c.len() == chain.len(),
        forall|k: int|
            0 <= k < c.len() ==> #[trigger] c[k] == chain[k].span_idx && chain[k].duration_us
                == spans[c[k]].event.duration_us,
    ensures
        serialized::sequential_us(chain) == c.fold_left(
            0nat,
            |n: nat, i: int| n + spans[i].event.duration_us as nat,
        ),
        serialized::parallel_us(chain) == c.fold_left(
            0u64,
            |n: u64, i: int|
                if spans[i].event.duration_us > n {
                    spans[i].event.duration_us
                } else {
                    n
                },
        ),
        c.len() > 0 ==> serialized::calls_text(spans, chain) == c.skip(1).fold_left(
            spans[c[0]].template@ + " ("@ + text::decimal(
                (spans[c[0]].event.duration_us / 1000) as nat,
            ) + "ms)"@,
            |t: Seq<char>, i: int|
                t + " -> "@ + (spans[i].template@ + " ("@ + text::decimal(
                    (spans[i].event.duration_us / 1000) as nat,
                ) + "ms)"@),
        ),
    decreases c.len(),
{
    if c.len() > 0 {
        assert(c.drop_last().len() == chain.drop_last().len());
        assert forall|k: int| 0 <= k < c.drop_last().len() implies #[trigger] c.drop_last()[k]
            == chain.drop_last()[k].span_idx && chain.drop_last()[k].duration_us
            == spans[c.drop_last()[k]].event.duration_us by {
            assert(c[k] == chain[k].span_idx);
        }
        lemma_calls(spans, chain.drop_last(), c.drop_last());
        let last = c.len() - 1;
        assert(c[last] == chain[last].span_idx);
        assert(c[0] == chain[0].span_idx);
        if c.len() > 1 {
            assert(c.skip(1).drop_last() =~= c.drop_last().skip(1));
            assert(c.skip(1).last() == c.last());
        } else {
            assert(c.skip(1) =~= Seq::<int>::empty());
        }
    }
}

/// A finding on serialized calls is about calls of one parent, each at its own place in the trace,
/// that follow each other: each starts when the whole duration of the one before it is over. There
/// are enough of them and they call two targets or more. The finding counts them, sums up their
/// durations and names the longest.
pub proof fn law_serialized_calls_follow_each_other(
    trace_id: Seq<char>,
    spans: &Vec<NormalizedEvent>,
    min_seq: nat,
    f: FindingView,
) -> (r: (Seq<char>, Seq<int>))
    requires
        serialized::serialized_findings(trace_id, spans, min_seq).contains(f),
    ensures
        ({
            let (parent, c) = r;
            let ts = c.map_values(|i: int| spans@[i].event.timestamp@);
            let own = indices::span_with_id(spans@, parent);
            let context = if own is Some {
                own->0.event
            } else {
                spans@[c[0]].event
            };
            let targets = c.map_values(|i: int| spans@[i].template@).to_set().len();
            &&& c.len() >= min_seq
            &&& c.len() >= 2
            &&& targets >= 2
            &&& forall|k: int|
                0 <= k < c.len() ==> 0 <= #[trigger] c[k] < spans@.len()
                    && spans@[c[k]].event.parent_span_id is Some
                    && spans@[c[k]].event.parent_span_id->0@ == parent && time::timestamp_ms(
                    spans@[c[k]].event.timestamp@,
                ) is Some
            &&& forall|j: int, k: int|
                0 <= j < c.len() && 0 <= k < c.len() && j != k ==> #[trigger] c[j] != #[trigger] c[k]
            &&& forall|k: int|
                0 < k < c.len() ==> time::timestamp_ms(spans@[c[k - 1]].event.timestamp@)->0
                    + spans@[c[k - 1]].event.duration_us / 1000 <= time::timestamp_ms(
                    spans@[#[trigger] c[k]].event.timestamp@,
                )->0
            &&& f == FindingView {
                finding_type: FindingType::SerializedCalls,
                severity: Severity::Info,
                trace_id,
                service: context.service@,
                grouping: context.grouping@.map_values(|a: GroupingAttribute| (a.key@, a.value@)),
                source_endpoint: context.source.endpoint@,
                pattern: PatternView {
                    template: context.source.endpoint@,
                    occurrences: c.len(),
                    window_ms: measure::window(ts),
                    distinct_params: targets,
                    occurrences_by_service: Seq::empty(),
                },
                suggestion: text::decimal(c.len())
                    + " sequential independent calls could potentially be parallelized: "@
                    + c.skip(1).fold_left(
                    spans@[c[0]].template@ + " ("@ + text::decimal(
                        (spans@[c[0]].event.duration_us / 1000) as nat,
                    ) + "ms)"@,
                    |t: Seq<char>, i: int|
                        t + " -> "@ + (spans@[i].template@ + " ("@ + text::decimal(
                            (spans@[i].event.duration_us / 1000) as nat,
                        ) + "ms)"@),
                ) + ". Total sequential: "@ + text::decimal(
                    c.fold_left(
                        0nat,
                        |n: nat, i: int| n + spans@[i].event.duration_us as nat,
                    ) / 1000,
                ) + "ms, potential parallel: ~"@ + text::decimal(
                    (c.fold_left(
                        0u64,
                        |n: u64, i: int|
                            if spans@[i].event.duration_us > n {
                                spans@[i].event.duration_us
                            } else {
                                n
                            },
                    ) / 1000) as nat,
                )
                    + "ms. If these calls are independent, consider executing them in parallel (e.g., tokio::join!, CompletableFuture.allOf(), Task.WhenAll())"@,
                first_timestamp: measure::earliest(ts),
                last_timestamp: measure::latest(ts),
                green_impact: None,
                confidence: Confidence::CiBatch,
                classification_method: None,
                code_location: None,
                instrumentation_scopes: Seq::empty(),
                suggested_fix: None,
                signature: Seq::empty(),
            }
        }),
{
    let g = SiblingPositions { spans };
    let all = indices::first_positions(spans@.len());
    let make = |children: Seq<usize>|
        serialized::serialized_finding(trace_id, spans@, children, min_seq);
    grouping::lemma_made_of_classes(g, all, make, f);
    let key = choose|k: Option<Seq<char>>|
        #![trigger grouping::class_members(g, all, k)]
        grouping::class_members(g, all, k).len() > 0 && make(grouping::class_members(g, all, k))
            == Some(f);
    let children = grouping::class_members(g, all, key);
    grouping::lemma_class_members(g, all, key);
    assert(g.key(children[0]) == key);
    let parent = indices::shared_parent(spans@, children);
    assert(children.contains(children[0]));
    permutation::lemma_filter_contains(all, grouping::in_class(g, key), children[0]);
    assert(key == Some(parent));
    let timed = serialized::by_end(spans@, children);
    let chain = serialized::chain_spans(timed, serialized::longest_chain(timed));
    let c = chain.map_values(|t: TimedSpan| t.span_idx as int);
    lemma_chain(spans, parent, chain);
    lemma_chain_finding(trace_id, spans@, parent, chain, c, min_seq, f);
    (parent, c)
}

proof fn lemma_chain(spans: &Vec<NormalizedEvent>, parent: Seq<char>, chain: Seq<TimedSpan>)
    requires
        ({
            let timed = serialized::by_end(
                spans@,
                grouping::class_members(
                    SiblingPositions { spans },
                    indices::first_positions(spans@.len()),
                    Some(parent),
                ),
            );
            chain == serialized::chain_spans(timed, serialized::longest_chain(timed))
        }),
    ensures
        forall|k: int|
            0 <= k < chain.len() ==> {
                let t = #[trigger] chain[k];
                let e = spans@[t.span_idx as int].event;
                &&& t.span_idx < spans@.len()
                &&& e.parent_span_id is Some && e.parent_span_id->0@ == parent
                &&& time::timestamp_ms(e.timestamp@) == Some(t.start_ms)
                &&& t.end_ms == t.start_ms + e.duration_us / 1000
                &&& t.duration_us == e.duration_us
            },
        forall|k: int| 0 < k < chain.len() ==> chain[k - 1].end_ms <= (#[trigger] chain[k]).start_ms,
        forall|j: int, k: int|
            0 <= j < chain.len() && 0 <= k < chain.len() && j != k ==> (
            #[trigger] chain[j]).span_idx != (#[trigger] chain[k]).span_idx,
{
    let timed = serialized::by_end(
        spans@,
        grouping::class_members(
            SiblingPositions { spans },
            indices::first_positions(spans@.len()),
            Some(parent),
        ),
    );
    lemma_by_end(spans, parent);
    let seq = serialized::longest_chain(timed);
    serialized::law_longest_chain_is_optimal(timed, Seq::empty());
    lemma_ascends(timed, seq);
    assert forall|k: int| 0 <= k < chain.len() implies ({
        let t = #[trigger] chain[k];
        let e = spans@[t.span_idx as int].event;
        &&& t.span_idx < spans@.len()
        &&& e.parent_span_id is Some && e.parent_span_id->0@ == parent
        &&& time::timestamp_ms(e.timestamp@) == Some(t.start_ms)
        &&& t.end_ms == t.start_ms + e.duration_us / 1000
        &&& t.duration_us == e.duration_us
    }) by {
        assert(seq[k] < timed.len());
        let t = timed[seq[k] as int];
        assert(serialized::timed_span(spans@, t.span_idx) == Some(t));
        law_span_takes_its_whole_duration(spans@, t.span_idx);
    }
    assert forall|k: int| 0 < k < chain.len() implies chain[k - 1].end_ms <= (
    #[trigger] chain[k]).start_ms by {
        assert(seq[k - 1] < seq[k]);
    }
    assert forall|j: int, k: int|
        0 <= j < chain.len() && 0 <= k < chain.len() && j != k implies (
    #[trigger] chain[j]).span_idx != (#[trigger] chain[k]).span_idx by {
        assert(seq[j] < timed.len() && seq[k] < timed.len());
        assert(seq[j] != seq[k]);
        assert(timed[seq[j] as int].span_idx != timed[seq[k] as int].span_idx);
    }
}

proof fn lemma_chain_finding(
    trace_id: Seq<char>,
    spans: Seq<NormalizedEvent>,
    parent: Seq<char>,
    chain: Seq<TimedSpan>,
    c: Seq<int>,
    min_seq: nat,
    f: FindingView,
)
    requires
        serialized::chain_finding(trace_id, spans, parent, chain, min_seq) == Some(f),
        c == chain.map_values(|t: TimedSpan| t.span_idx as int),
        forall|k: int|
            0 <= k < chain.len() ==> (#[trigger] chain[k]).duration_us
                == spans[chain[k].span_idx as int].event.duration_us,
    ensures
        ({
            let ts = c.map_values(|i: int| spans[i].event.timestamp@);
            let own = indices::span_with_id(spans, parent);
            let context = if own is Some {
                own->0.event
            } else {
                spans[c[0]].event
            };
            let targets = c.map_values(|i: int| spans[i].template@).to_set().len();
            &&& c.len() >= min_seq
            &&& c.len() >= 2
            &&& targets >= 2
            &&& f == FindingView {
                finding_type: FindingType::SerializedCalls,
                severity: Severity::Info,
                trace_id,
                service: context.service@,
                grouping: context.grouping@.map_values(|a: GroupingAttribute| (a.key@, a.value@)),
                source_endpoint: context.source.endpoint@,
                pattern: PatternView {
                    template: context.source.endpoint@,
                    occurrences: c.len(),
                    window_ms: measure::window(ts),
                    distinct_params: targets,
                    occurrences_by_service: Seq::empty(),
                },
                suggestion: text::decimal(c.len())
                    + " sequential independent calls could potentially be parallelized: "@
                    + c.skip(1).fold_left(
                    spans[c[0]].template@ + " ("@ + text::decimal(
                        (spans[c[0]].event.duration_us / 1000) as nat,
                    ) + "ms)"@,
                    |t: Seq<char>, i: int|
                        t + " -> "@ + (spans[i].template@ + " ("@ + text::decimal(
                            (spans[i].event.duration_us / 1000) as nat,
                        ) + "ms)"@),
                ) + ". Total sequential: "@ + text::decimal(
                    c.fold_left(
                        0nat,
                        |n: nat, i: int| n + spans[i].event.duration_us as nat,
                    ) / 1000,
                ) + "ms, potential parallel: ~"@ + text::decimal(
                    (c.fold_left(
                        0u64,
                        |n: u64, i: int|
                            if spans[i].event.duration_us > n {
                                spans[i].event.duration_us
                            } else {
                                n
                            },
                    ) / 1000) as nat,
                )
                    + "ms. If these calls are independent, consider executing them in parallel (e.g., tokio::join!, CompletableFuture.allOf(), Task.WhenAll())"@,
                first_timestamp: measure::earliest(ts),
                last_timestamp: measure::latest(ts),
                green_impact: None,
                confidence: Confidence::CiBatch,
                classification_method: None,
                code_location: None,
                instrumentation_scopes: Seq::empty(),
                suggested_fix: None,
                signature: Seq::empty(),
            }
        }),
{
    assert forall|k: int| 0 <= k < c.len() implies #[trigger] c[k] == chain[k].span_idx
        && chain[k].duration_us == spans[c[k]].event.duration_us by {}
    lemma_calls(spans, chain, c);
    assert(serialized::templates(spans, chain) =~= c.map_values(|i: int| spans[i].template@));
    assert(serialized::chain_timestamps(spans, chain) =~= c.map_values(
        |i: int| spans[i].event.timestamp@,
    ));
    measure::lemma_distinct_bound(serialized::templates(spans, chain));
    let context = indices::context_span(spans, parent, spans[chain[0].span_idx as int]);
    assert(c[0] == chain[0].span_idx);
    assert(event::grouping_views(context.event.grouping@) =~= context.event.grouping@.map_values(
        |a: GroupingAttribute| (a.key@, a.value@),
    ));
}
proof fn lemma_ascends(timed: Seq<TimedSpan>, seq: Seq<usize>)
    requires
        serialized::is_chain(timed, seq),
    ensures
        forall|j: int, k: int| 0 <= j < k < seq.len() ==> #[trigger] seq[j] < #[trigger] seq[k],
    decreases seq.len(),
{
    if seq.len() > 0 {
        let rest = seq.drop_last();
        assert(serialized::is_chain(timed, rest)) by {
            assert forall|k: int| 0 < k < rest.len() implies rest[k - 1] < #[trigger] rest[k]
                && timed[rest[k - 1] as int].end_ms <= timed[rest[k] as int].start_ms by {
                assert(seq[k - 1] < seq[k]);
            }
        }
        lemma_ascends(timed, rest);
        assert forall|j: int, k: int| 0 <= j < k < seq.len() implies #[trigger] seq[j]
            < #[trigger] seq[k] by {
            if k < rest.len() {
                assert(rest[j] < rest[k]);
            } else {
                assert(seq[k - 1] < seq[k]);
                if j < k - 1 {
                    assert(rest[j] < rest[k - 1]);
                }
            }
        }
    }
}

proof fn lemma_chain_no_shorter(
    spans: &Vec<NormalizedEvent>,
    parent: Seq<char>,
    c: Seq<int>,
    timed: Seq<TimedSpan>,
)
    requires
        timed == serialized::by_end(
            spans@,
            grouping::class_members(
                SiblingPositions { spans },
                indices::first_positions(spans@.len()),
                Some(parent),
            ),
        ),
        forall|k: int|
            0 <= k < c.len() ==> 0 <= #[trigger] c[k] < spans@.len()
                && spans@[c[k]].event.parent_span_id is Some
                && spans@[c[k]].event.parent_span_id->0@ == parent && time::timestamp_ms(
                spans@[c[k]].event.timestamp@,
            ) is Some && spans@[c[k]].event.duration_us >= 1000,
        forall|j: int, k: int|
            0 <= j && k == j + 1 && k < c.len() ==> time::timestamp_ms(
                spans@[#[trigger] c[j]].event.timestamp@,
            )->0 + spans@[c[j]].event.duration_us / 1000 <= time::timestamp_ms(
                spans@[#[trigger] c[k]].event.timestamp@,
            )->0,
    ensures
        serialized::longest_chain(timed).len() >= c.len(),
{
    lemma_by_end(spans, parent);
    assert(spans.len() == spans@.len());
    let at = |k: int|
        choose|p: int|
            0 <= p < timed.len() && timed[p] == serialized::timed_span(
                spans@,
                c[k] as usize,
            )->0;
    let other = Seq::new(c.len(), |k: int| at(k) as usize);
    assert forall|k: int| 0 <= k < c.len() implies #[trigger] other[k] == at(k) && other[k]
        < timed.len() && timed[other[k] as int].start_ms == time::timestamp_ms(
        spans@[c[k]].event.timestamp@,
    )->0 && timed[other[k] as int].end_ms == timed[other[k] as int].start_ms
        + spans@[c[k]].event.duration_us / 1000 && spans@[c[k]].event.duration_us >= 1000 by {
        assert(0 <= c[k] < spans@.len());
        assert(spans@[c[k]].event.parent_span_id is Some);
        let t = serialized::timed_span(spans@, c[k] as usize)->0;
        assert(timed.contains(t));
        let p = choose|p: int| 0 <= p < timed.len() && timed[p] == t;
        assert(at(k) == p);
        law_span_takes_its_whole_duration(spans@, c[k] as usize);
    }
    assert forall|k: int| 0 < k < other.len() implies other[k - 1] < #[trigger] other[k]
        && timed[other[k - 1] as int].end_ms <= timed[other[k] as int].start_ms by {
        assert(other[k - 1] < timed.len());
        assert(time::timestamp_ms(spans@[c[k - 1]].event.timestamp@)->0
            + spans@[c[k - 1]].event.duration_us / 1000 <= time::timestamp_ms(
            spans@[c[k]].event.timestamp@,
        )->0);
        let (a, b) = (timed[other[k - 1] as int], timed[other[k] as int]);
        assert(a.end_ms < b.end_ms);
        if other[k] < other[k - 1] {
            assert(order::Ranked::rank_le(&b, &a));
        }
    }
    serialized::law_longest_chain_is_optimal(timed, other);
}

proof fn lemma_targets_differ(
    spans: Seq<NormalizedEvent>,
    parent: Seq<char>,
    chain: Seq<TimedSpan>,
)
    requires
        chain.len() >= 2,
        chain[0].span_idx != chain[1].span_idx,
        forall|k: int|
            0 <= k < chain.len() ==> (#[trigger] chain[k]).span_idx < spans.len()
                && spans[chain[k].span_idx as int].event.parent_span_id is Some
                && spans[chain[k].span_idx as int].event.parent_span_id->0@ == parent,
        forall|i: int, j: int|
            0 <= i < spans.len() && 0 <= j < spans.len() && i != j && (
            #[trigger] spans[i]).event.parent_span_id is Some
                && spans[i].event.parent_span_id->0@ == parent && (
            #[trigger] spans[j]).event.parent_span_id is Some
                && spans[j].event.parent_span_id->0@ == parent ==> spans[i].template@
                != spans[j].template@,
    ensures
        measure::distinct(serialized::templates(spans, chain)) >= 2,
{
    let names = serialized::templates(spans, chain);
    let (x, y) = (chain[0], chain[1]);
    assert(spans[x.span_idx as int].event.parent_span_id is Some);
    assert(spans[y.span_idx as int].event.parent_span_id is Some);
    assert(names[0] != names[1]);
    slow::lemma_two_ids(names);
}

/// Calls of one parent that follow each other and take a millisecond or more are reported, where
/// there are enough of them and no two calls of the parent have the same target: the finding holds
/// as many calls or more.
pub proof fn law_calls_that_follow_each_other_are_reported(
    trace_id: Seq<char>,
    spans: &Vec<NormalizedEvent>,
    min_seq: nat,
    parent: Seq<char>,
    c: Seq<int>,
)
    requires
        c.len() >= 2,
        c.len() >= min_seq,
        forall|k: int|
            0 <= k < c.len() ==> 0 <= #[trigger] c[k] < spans@.len()
                && spans@[c[k]].event.parent_span_id is Some
                && spans@[c[k]].event.parent_span_id->0@ == parent && time::timestamp_ms(
                spans@[c[k]].event.timestamp@,
            ) is Some && spans@[c[k]].event.duration_us >= 1000,
        forall|j: int, k: int|
            0 <= j && k == j + 1 && k < c.len() ==> time::timestamp_ms(
                spans@[#[trigger] c[j]].event.timestamp@,
            )->0 + spans@[c[j]].event.duration_us / 1000 <= time::timestamp_ms(
                spans@[#[trigger] c[k]].event.timestamp@,
            )->0,
        forall|i: int, j: int|
            0 <= i < spans@.len() && 0 <= j < spans@.len() && i != j && (
            #[trigger] spans@[i]).event.parent_span_id is Some
                && spans@[i].event.parent_span_id->0@ == parent && (
            #[trigger] spans@[j]).event.parent_span_id is Some
                && spans@[j].event.parent_span_id->0@ == parent ==> spans@[i].template@
                != spans@[j].template@,
    ensures
        exists|f: FindingView| #[trigger]
            serialized::serialized_findings(trace_id, spans, min_seq).contains(f)
                && f.pattern.occurrences >= c.len(),
{
    let g = SiblingPositions { spans };
    let all = indices::first_positions(spans@.len());
    let make = |children: Seq<usize>|
        serialized::serialized_finding(trace_id, spans@, children, min_seq);
    let children = grouping::class_members(g, all, Some(parent));
    let timed = serialized::by_end(spans@, children);
    lemma_chain_no_shorter(spans, parent, c, timed);
    let chain = serialized::chain_spans(timed, serialized::longest_chain(timed));
    lemma_chain(spans, parent, chain);
    lemma_targets_differ(spans@, parent, chain);
    assert(children.len() > 0) by {
        assert(spans.len() == spans@.len());
        assert(0 <= c[0] < spans@.len());
        assert(all[c[0]] == c[0] as usize);
        assert(grouping::in_class(g, Some(parent))(all[c[0]]));
        permutation::lemma_filter_contains(all, grouping::in_class(g, Some(parent)), all[c[0]]);
    }
    assert(make(children) is Some);
    let f = make(children)->0;
    assert(f.pattern.occurrences == chain.len());
    assert(serialized::serialized_findings(trace_id, spans, min_seq).contains(f)) by {
        grouping::lemma_made_of_classes(g, all, make, f);
    }
}

/// Where any two calls of a parent overlap by a millisecond or more, nothing is reported.
pub proof fn law_overlapping_calls_are_not_serialized(
    trace_id: Seq<char>,
    spans: &Vec<NormalizedEvent>,
    min_seq: nat,
)
    requires
        forall|i: int, j: int|
            0 <= i < spans@.len() && 0 <= j < spans@.len() && i != j && (
            #[trigger] spans@[i]).event.parent_span_id is Some && (
            #[trigger] spans@[j]).event.parent_span_id is Some
                && spans@[i].event.parent_span_id->0@ == spans@[j].event.parent_span_id->0@
                && time::timestamp_ms(spans@[i].event.timestamp@) is Some && time::timestamp_ms(
                spans@[j].event.timestamp@,
            ) is Some ==> time::timestamp_ms(spans@[j].event.timestamp@)->0 < time::timestamp_ms(
                spans@[i].event.timestamp@,
            )->0 + spans@[i].event.duration_us / 1000,
    ensures
        serialized::serialized_findings(trace_id, spans, min_seq).len() == 0,
{
    let found = serialized::serialized_findings(trace_id, spans, min_seq);
    if found.len() > 0 {
        assert(found.contains(found[0]));
        let (parent, c) = law_serialized_calls_follow_each_other(
            trace_id,
            spans,
            min_seq,
            found[0],
        );
        assert(c[0] != c[1]);
        assert(0 <= c[0] < spans@.len() && 0 <= c[1] < spans@.len());
        assert(spans@[c[0]].event.parent_span_id is Some);
        assert(spans@[c[1]].event.parent_span_id is Some);
        assert(time::timestamp_ms(spans@[c[1 - 1]].event.timestamp@)->0
            + spans@[c[1 - 1]].event.duration_us / 1000 <= time::timestamp_ms(
            spans@[c[1]].event.timestamp@,
        )->0);
    }
}

} // verus!

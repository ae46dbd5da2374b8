//! What the detectors report, stated on the spans themselves.

use crate::detect::chatty;
use crate::detect::chatty::HttpTargets;
use crate::detect::fanout;
use crate::detect::finding::{ClassificationMethod, Confidence, PatternView};
use crate::detect::grouping;
use crate::detect::grouping::Classifier;
use crate::detect::indices;
use crate::detect::indices::SiblingPositions;
use crate::detect::measure;
use crate::detect::measure::ByTemplate;
use crate::detect::n_plus_one;
use crate::detect::pool_saturation;
use crate::detect::pool_saturation::SqlPools;
use crate::detect::redundant;
use crate::detect::redundant::ExactDuplicates;
use crate::detect::sanitizer_aware;
use crate::detect::sanitizer_aware::SanitizerAwareMode;
use crate::detect::slow;
use crate::detect::slow::SlowSpans;
use crate::detect::{FindingType, FindingView, Severity};
use crate::event;
use crate::event::{EventType, GroupingAttribute, NormalizedEvent};
use crate::permutation;
use crate::text;
use vstd::prelude::*;

verus! {

proof fn lemma_template_class(spans: Seq<NormalizedEvent>, kind: EventType, template: Seq<char>)
    ensures
        grouping::class_members(ByTemplate {  }, spans, (kind, template)) == spans.filter(
            |s: NormalizedEvent| s.event.event_type == kind && s.template@ == template,
        ),
{
    let g = ByTemplate {  };
    let k = (kind, template);
    permutation::lemma_filter_same(
        spans,
        grouping::in_class(g, k),
        |s: NormalizedEvent| s.event.event_type == kind && s.template@ == template,
    );
}

proof fn lemma_kept<A>(s: Seq<A>, p: spec_fn(A) -> bool)
    ensures
        forall|i: int| 0 <= i < s.filter(p).len() ==> p(#[trigger] s.filter(p)[i]) && s.contains(
            s.filter(p)[i],
        ),
{
    assert forall|i: int| 0 <= i < s.filter(p).len() implies p(#[trigger] s.filter(p)[i])
        && s.contains(s.filter(p)[i]) by {
        assert(s.filter(p).contains(s.filter(p)[i]));
        permutation::lemma_filter_contains(s, p, s.filter(p)[i]);
    }
}

proof fn lemma_lists(group: Seq<NormalizedEvent>)
    ensures
        measure::distinct_params(group) == group.map_values(
            |s: NormalizedEvent| s.params@.map_values(|p: String| p@),
        ).to_set().len(),
        measure::timestamps(group) == group.map_values(|s: NormalizedEvent| s.event.timestamp@),
{
    let lists = group.map_values(|s: NormalizedEvent| s.params@.map_values(|p: String| p@));
    assert(measure::param_lists(group) =~= lists) by {
        assert forall|i: int| 0 <= i < group.len() implies measure::param_lists(group)[i]
            == lists[i] by {
            assert(event::texts(group[i].params@) =~= group[i].params@.map_values(
                |p: String| p@,
            ));
        }
    }
    assert(measure::timestamps(group) =~= group.map_values(
        |s: NormalizedEvent| s.event.timestamp@,
    ));
}

/// An operation, given by its kind and template, is an N+1 finding if and only if enough spans
/// carry it, within the window, and either enough of their parameter lists differ or the mode lets
/// the heuristic stand in. Its finding counts the spans and is told by the first of them.
pub proof fn law_n_plus_one_on_the_spans(
    trace_id: Seq<char>,
    spans: Seq<NormalizedEvent>,
    threshold: nat,
    window_limit: u64,
    mode: SanitizerAwareMode,
    kind: EventType,
    template: Seq<char>,
)
    ensures
        ({
            let found = n_plus_one::n_plus_one_findings(
                trace_id,
                spans,
                threshold,
                window_limit,
                mode,
            );
            let calls = spans.filter(
                |s: NormalizedEvent| s.event.event_type == kind && s.template@ == template,
            );
            let n = calls.len();
            let ts = calls.map_values(|s: NormalizedEvent| s.event.timestamp@);
            let lists = calls.map_values(
                |s: NormalizedEvent| s.params@.map_values(|p: String| p@),
            ).to_set().len();
            let sanitized = forall|i: int|
                0 <= i < n ==> (#[trigger] calls[i]).params@.len() == 0
                    && calls[i].template@.contains('?');
            let orm = exists|i: int, j: int|
                0 <= i < n && 0 <= j < calls[i].event.instrumentation_scopes@.len()
                    && sanitizer_aware::is_orm_scope(
                    (#[trigger] calls[i].event.instrumentation_scopes@[j])@,
                );
            let spread = sanitizer_aware::durations_spread(calls);
            let in_turn = n_plus_one::siblings_in_sequence(calls);
            let many = n >= 3 * threshold;
            let likely = match (mode, kind) {
                (SanitizerAwareMode::Never, _) => false,
                (SanitizerAwareMode::Always, EventType::Sql) => sanitized,
                (SanitizerAwareMode::Always, EventType::HttpOut) => true,
                (SanitizerAwareMode::Auto, EventType::Sql) => sanitized && (orm || spread),
                (SanitizerAwareMode::Auto, EventType::HttpOut) => spread,
                (SanitizerAwareMode::Strict, EventType::Sql) => sanitized && (orm || in_turn
                    || many) && (spread || many),
                (SanitizerAwareMode::Strict, EventType::HttpOut) => (template.contains('{')
                    || in_turn || many) && (spread || many),
            };
            let direct = lists >= threshold;
            let reported = n > 0 && n >= threshold && (direct || likely) && measure::window(ts)
                <= window_limit;
            let first = calls[0].event;
            let expected = FindingView {
                finding_type: match kind {
                    EventType::Sql => FindingType::NPlusOneSql,
                    EventType::HttpOut => FindingType::NPlusOneHttp,
                },
                severity: if n >= 10 {
                    Severity::Critical
                } else {
                    Severity::Warning
                },
                trace_id,
                service: first.service@,
                grouping: first.grouping@.map_values(|a: GroupingAttribute| (a.key@, a.value@)),
                source_endpoint: first.source.endpoint@,
                pattern: PatternView {
                    template,
                    occurrences: n,
                    window_ms: measure::window(ts),
                    distinct_params: if direct || kind is HttpOut {
                        lists
                    } else {
                        1
                    },
                    occurrences_by_service: Seq::empty(),
                },
                suggestion: match kind {
                    EventType::Sql => "Use WHERE ... IN (?) to batch "@ + text::decimal(n)
                        + " queries into one"@,
                    EventType::HttpOut => "Use batch endpoint with ?ids=... to batch "@
                        + text::decimal(n) + " calls into one"@,
                },
                first_timestamp: measure::earliest(ts),
                last_timestamp: measure::latest(ts),
                green_impact: None,
                confidence: Confidence::CiBatch,
                classification_method: if direct {
                    None
                } else {
                    Some(ClassificationMethod::SanitizerHeuristic)
                },
                code_location: first.location(),
                instrumentation_scopes: first.instrumentation_scopes@.map_values(|t: String| t@),
                suggested_fix: None,
                signature: Seq::empty(),
            };
            &&& reported ==> found.contains(expected)
            &&& forall|f: FindingView| #[trigger]
                found.contains(f) && f.finding_type == expected.finding_type
                    && f.pattern.template == template ==> reported && f == expected
            &&& forall|f: FindingView| #[trigger]
                found.contains(f) ==> f.finding_type is NPlusOneSql || f.finding_type
                    is NPlusOneHttp
        }),
{
    let g = ByTemplate {  };
    let make = |group: Seq<NormalizedEvent>|
        n_plus_one::n_plus_one_finding(trace_id, group, threshold, window_limit, mode);
    let found = n_plus_one::n_plus_one_findings(trace_id, spans, threshold, window_limit, mode);
    let test = |s: NormalizedEvent| s.event.event_type == kind && s.template@ == template;
    let calls = spans.filter(test);
    let n = calls.len();
    lemma_template_class(spans, kind, template);
    lemma_kept(spans, test);
    lemma_lists(calls);
    let scopes = sanitizer_aware::group_scopes(calls);
    let orm = exists|i: int, j: int|
        0 <= i < n && 0 <= j < calls[i].event.instrumentation_scopes@.len()
            && sanitizer_aware::is_orm_scope(
            (#[trigger] calls[i].event.instrumentation_scopes@[j])@,
        );
    assert(orm == sanitizer_aware::any_orm_scope(scopes)) by {
        if orm {
            let (i, j) = choose|i: int, j: int|
                0 <= i < n && 0 <= j < calls[i].event.instrumentation_scopes@.len()
                    && sanitizer_aware::is_orm_scope(
                    (#[trigger] calls[i].event.instrumentation_scopes@[j])@,
                );
            let x = calls[i].event.instrumentation_scopes@[j]@;
            assert(event::texts(calls[i].event.instrumentation_scopes@)[j] == x);
            sanitizer_aware::lemma_group_scopes(calls, x);
            let m = choose|m: int| 0 <= m < scopes.len() && scopes[m] == x;
            assert(sanitizer_aware::is_orm_scope(scopes[m]));
        }
        if sanitizer_aware::any_orm_scope(scopes) {
            let m = choose|m: int|
                0 <= m < scopes.len() && sanitizer_aware::is_orm_scope(#[trigger] scopes[m]);
            assert(scopes.contains(scopes[m]));
            sanitizer_aware::lemma_group_scopes(calls, scopes[m]);
            let i = choose|i: int|
                0 <= i < calls.len() && event::texts(
                    (#[trigger] calls[i]).event.instrumentation_scopes@,
                ).contains(scopes[m]);
            let list = event::texts(calls[i].event.instrumentation_scopes@);
            let j = choose|j: int| 0 <= j < list.len() && list[j] == scopes[m];
            assert(sanitizer_aware::is_orm_scope(calls[i].event.instrumentation_scopes@[j]@));
        }
    }
    if n > 0 {
        let first = calls[0].event;
        assert(test(calls[0]));
        assert(event::grouping_views(first.grouping@) =~= first.grouping@.map_values(
            |a: GroupingAttribute| (a.key@, a.value@),
        ));
        assert(event::texts(first.instrumentation_scopes@)
            =~= first.instrumentation_scopes@.map_values(|t: String| t@));
        let all_sanitized = forall|i: int|
            0 <= i < n ==> (#[trigger] calls[i]).params@.len() == 0 && calls[i].template@.contains(
                '?',
            );
        assert(all_sanitized == sanitizer_aware::all_sanitized(calls)) by {
            if all_sanitized {
                assert forall|i: int| 0 <= i < n implies sanitizer_aware::is_sanitized(
                    #[trigger] calls[i],
                ) by {}
            }
            if sanitizer_aware::all_sanitized(calls) {
                assert forall|i: int| 0 <= i < n implies (#[trigger] calls[i]).params@.len() == 0
                    && calls[i].template@.contains('?') by {
                    assert(sanitizer_aware::is_sanitized(calls[i]));
                }
            }
        }
        if let Some(f) = make(calls) {
            grouping::lemma_made_of_classes(g, spans, make, f);
            assert(grouping::class_members(g, spans, (kind, template)) == calls);
        }
    }
    assert forall|f: FindingView| #[trigger] found.contains(f) implies (f.finding_type
        is NPlusOneSql || f.finding_type is NPlusOneHttp) && (f.finding_type
        == FindingType::n_plus_one(kind) && f.pattern.template == template ==> n > 0 && make(calls)
        == Some(f)) by {
        grouping::lemma_made_of_classes(g, spans, make, f);
        let k = choose|k: (EventType, Seq<char>)|
            #![trigger grouping::class_members(g, spans, k)]
            grouping::class_members(g, spans, k).len() > 0 && make(
                grouping::class_members(g, spans, k),
            ) == Some(f);
        grouping::lemma_class_members(g, spans, k);
        assert(g.key(grouping::class_members(g, spans, k)[0]) == k);
    }
}

/// Spans of one operation with pairwise different parameters are an N+1 as soon as there are enough
/// of them within the window, whatever the mode.
pub proof fn law_different_parameters_are_an_n_plus_one(
    trace_id: Seq<char>,
    spans: Seq<NormalizedEvent>,
    threshold: nat,
    window_limit: u64,
    mode: SanitizerAwareMode,
    kind: EventType,
    template: Seq<char>,
)
    requires
        ({
            let calls = spans.filter(
                |s: NormalizedEvent| s.event.event_type == kind && s.template@ == template,
            );
            &&& calls.len() > 0
            &&& calls.len() >= threshold
            &&& measure::window(calls.map_values(|s: NormalizedEvent| s.event.timestamp@))
                <= window_limit
            &&& forall|i: int, j: int|
                #![trigger calls[i], calls[j]]
                0 <= i < j < calls.len() ==> calls[i].params@.len() != calls[j].params@.len()
                    || exists|k: int|
                    0 <= k < calls[i].params@.len() && (#[trigger] calls[i].params@[k])@
                        != calls[j].params@[k]@
        }),
    ensures
        ({
            let n = spans.filter(
                |s: NormalizedEvent| s.event.event_type == kind && s.template@ == template,
            ).len();
            exists|f: FindingView| #[trigger]
                n_plus_one::n_plus_one_findings(
                    trace_id,
                    spans,
                    threshold,
                    window_limit,
                    mode,
                ).contains(f) && f.pattern.template == template && f.pattern.occurrences == n
                    && f.pattern.distinct_params == n && f.classification_method is None
        }),
{
    let calls = spans.filter(
        |s: NormalizedEvent| s.event.event_type == kind && s.template@ == template,
    );
    measure::law_different_parameters_all_count(calls);
    lemma_lists(calls);
    law_n_plus_one_on_the_spans(
        trace_id,
        spans,
        threshold,
        window_limit,
        mode,
        kind,
        template,
    );
}

/// An operation is a slow finding if and only if enough of its spans take longer than the
/// threshold; only those count. It is critical if one of them takes longer than five times the
/// threshold.
pub proof fn law_slow_operations_on_the_spans(
    trace_id: Seq<char>,
    spans: Seq<NormalizedEvent>,
    threshold_ms: u64,
    min_occurrences: nat,
    kind: EventType,
    template: Seq<char>,
)
    ensures
        ({
            let found = slow::slow_findings(trace_id, spans, threshold_ms, min_occurrences);
            let calls = spans.filter(
                |s: NormalizedEvent|
                    s.event.event_type == kind && s.template@ == template && s.event.duration_us
                        > 1000 * threshold_ms,
            );
            let n = calls.len();
            let ts = calls.map_values(|s: NormalizedEvent| s.event.timestamp@);
            let reported = n > 0 && n >= min_occurrences;
            let first = calls[0].event;
            let expected = FindingView {
                finding_type: match kind {
                    EventType::Sql => FindingType::SlowSql,
                    EventType::HttpOut => FindingType::SlowHttp,
                },
                severity: if exists|i: int|
                    0 <= i < n && (#[trigger] calls[i]).event.duration_us > 5000 * threshold_ms {
                    Severity::Critical
                } else {
                    Severity::Warning
                },
                trace_id,
                service: first.service@,
                grouping: first.grouping@.map_values(|a: GroupingAttribute| (a.key@, a.value@)),
                source_endpoint: first.source.endpoint@,
                pattern: PatternView {
                    template,
                    occurrences: n,
                    window_ms: measure::window(ts),
                    distinct_params: calls.map_values(
                        |s: NormalizedEvent| s.params@.map_values(|p: String| p@),
                    ).to_set().len(),
                    occurrences_by_service: Seq::empty(),
                },
                suggestion: match kind {
                    EventType::Sql => "Consider adding an index or optimizing query"@,
                    EventType::HttpOut => "Consider caching or optimizing endpoint"@,
                },
                first_timestamp: measure::earliest(ts),
                last_timestamp: measure::latest(ts),
                green_impact: None,
                confidence: Confidence::CiBatch,
                classification_method: None,
                code_location: first.location(),
                instrumentation_scopes: first.instrumentation_scopes@.map_values(|t: String| t@),
                suggested_fix: None,
                signature: Seq::empty(),
            };
            &&& reported ==> found.contains(expected)
            &&& forall|f: FindingView| #[trigger]
                found.contains(f) && f.finding_type == expected.finding_type
                    && f.pattern.template == template ==> reported && f == expected
            &&& forall|f: FindingView| #[trigger]
                found.contains(f) ==> f.finding_type is SlowSql || f.finding_type is SlowHttp
        }),
{
    let limit = slow::threshold_us(threshold_ms);
    let g = SlowSpans { threshold_us: limit };
    let make = |group: Seq<NormalizedEvent>|
        slow::slow_finding(trace_id, group, limit, min_occurrences);
    let found = slow::slow_findings(trace_id, spans, threshold_ms, min_occurrences);
    let test = |s: NormalizedEvent|
        s.event.event_type == kind && s.template@ == template && s.event.duration_us > 1000
            * threshold_ms;
    let calls = spans.filter(test);
    let n = calls.len();
    let k = (kind, template);
    assert forall|s: NormalizedEvent| spans.contains(s) implies (#[trigger] test(s)
        == grouping::in_class(g, k)(s)) by {
        lemma_slower(s.event.duration_us, threshold_ms);
    }
    permutation::lemma_filter_same(spans, test, grouping::in_class(g, k));
    lemma_kept(spans, test);
    lemma_lists(calls);
    if n > 0 {
        let first = calls[0].event;
        assert(test(calls[0]));
        assert(event::grouping_views(first.grouping@) =~= first.grouping@.map_values(
            |a: GroupingAttribute| (a.key@, a.value@),
        ));
        assert(event::texts(first.instrumentation_scopes@)
            =~= first.instrumentation_scopes@.map_values(|t: String| t@));
        lemma_longest(calls);
        let worst = slow::longest(calls);
        lemma_slower(worst, threshold_ms);
        if let Some(f) = make(calls) {
            grouping::lemma_made_of_classes(g, spans, make, f);
            assert(grouping::class_members(g, spans, k) == calls);
        }
    }
    assert forall|f: FindingView| #[trigger] found.contains(f) implies (f.finding_type is SlowSql
        || f.finding_type is SlowHttp) && (f.finding_type == FindingType::slow(kind)
        && f.pattern.template == template ==> n > 0 && make(calls) == Some(f)) by {
        grouping::lemma_made_of_classes(g, spans, make, f);
        let m = choose|m: (EventType, Seq<char>)|
            #![trigger grouping::class_members(g, spans, m)]
            grouping::class_members(g, spans, m).len() > 0 && make(
                grouping::class_members(g, spans, m),
            ) == Some(f);
        grouping::lemma_class_members(g, spans, m);
        assert(g.key(grouping::class_members(g, spans, m)[0]) == m);
    }
}

proof fn lemma_slower(duration_us: u64, threshold_ms: u64)
    ensures
        duration_us > slow::threshold_us(threshold_ms) <==> duration_us > 1000 * threshold_ms,
        slow::duration_severity(duration_us, slow::threshold_us(threshold_ms)) is Critical
            <==> duration_us > 5000 * threshold_ms,
        slow::duration_severity(duration_us, slow::threshold_us(threshold_ms)) is Info <==> false,
{
}

proof fn lemma_longest(group: Seq<NormalizedEvent>)
    requires
        group.len() > 0,
    ensures
        exists|i: int|
            0 <= i < group.len() && (#[trigger] group[i]).event.duration_us == slow::longest(group),
        forall|i: int|
            0 <= i < group.len() ==> (#[trigger] group[i]).event.duration_us <= slow::longest(
                group,
            ),
    decreases group.len(),
{
    let rest = group.drop_last();
    assert(group[group.len() - 1] == group.last());
    if rest.len() > 0 {
        lemma_longest(rest);
        let i = choose|i: int|
            0 <= i < rest.len() && (#[trigger] rest[i]).event.duration_us == slow::longest(rest);
        assert(group[i] == rest[i]);
        assert forall|i: int| 0 <= i < group.len() implies (#[trigger] group[i]).event.duration_us
            <= slow::longest(group) by {
            if i < rest.len() {
                assert(group[i] == rest[i]);
            }
        }
    } else {
        assert(slow::longest(rest) == 0);
        assert(group[0] == group.last());
    }
}

proof fn lemma_context_of(e: event::SpanEvent)
    ensures
        event::grouping_views(e.grouping@) == e.grouping@.map_values(
            |a: GroupingAttribute| (a.key@, a.value@),
        ),
        event::texts(e.instrumentation_scopes@) == e.instrumentation_scopes@.map_values(
            |t: String| t@,
        ),
{
    assert(event::grouping_views(e.grouping@) =~= e.grouping@.map_values(
        |a: GroupingAttribute| (a.key@, a.value@),
    ));
    assert(event::texts(e.instrumentation_scopes@) =~= e.instrumentation_scopes@.map_values(
        |t: String| t@,
    ));
}

/// Operations that agree in kind, template, every parameter and grouping attribute are a redundant
/// finding if and only if there are two or more of them, they do not just set up a database
/// session, and no N+1 finding claims the operation. Here the operations are those of span `i`.
pub proof fn law_redundant_operations_on_the_spans(
    trace_id: Seq<char>,
    spans: Seq<NormalizedEvent>,
    n_plus_one: Seq<FindingView>,
    i: int,
)
    requires
        0 <= i < spans.len(),
    ensures
        ({
            let found = redundant::redundant_findings(trace_id, spans, n_plus_one);
            let kind = spans[i].event.event_type;
            let template = spans[i].template@;
            let params = spans[i].params@.map_values(|p: String| p@);
            let identity = spans[i].event.identity();
            let calls = spans.filter(
                |s: NormalizedEvent|
                    s.event.event_type == kind && s.template@ == template && s.params@.map_values(
                        |p: String| p@,
                    ) == params && s.event.identity() == identity && !(kind is Sql
                        && s.session_command),
            );
            let n = calls.len();
            let ts = calls.map_values(|s: NormalizedEvent| s.event.timestamp@);
            let claimed = exists|m: int|
                0 <= m < n_plus_one.len() && (#[trigger] n_plus_one[m]).pattern.template
                    == template && n_plus_one[m].finding_type == (match kind {
                    EventType::Sql => FindingType::NPlusOneSql,
                    EventType::HttpOut => FindingType::NPlusOneHttp,
                }) && n_plus_one[m].identity() == identity;
            let first = calls[0].event;
            let expected = FindingView {
                finding_type: match kind {
                    EventType::Sql => FindingType::RedundantSql,
                    EventType::HttpOut => FindingType::RedundantHttp,
                },
                severity: if n >= 5 {
                    Severity::Warning
                } else {
                    Severity::Info
                },
                trace_id,
                service: first.service@,
                grouping: first.grouping@.map_values(|a: GroupingAttribute| (a.key@, a.value@)),
                source_endpoint: first.source.endpoint@,
                pattern: PatternView {
                    template,
                    occurrences: n,
                    window_ms: measure::window(ts),
                    distinct_params: 1,
                    occurrences_by_service: redundant::service_split(calls),
                },
                suggestion: "Identical operation executed "@ + text::decimal(n)
                    + " times: cache result or deduplicate"@,
                first_timestamp: measure::earliest(ts),
                last_timestamp: measure::latest(ts),
                green_impact: None,
                confidence: Confidence::CiBatch,
                classification_method: None,
                code_location: first.location(),
                instrumentation_scopes: first.instrumentation_scopes@.map_values(|t: String| t@),
                suggested_fix: None,
                signature: Seq::empty(),
            };
            n >= 2 && !claimed ==> found.contains(expected)
        }),
{
    let g = ExactDuplicates {  };
    let k = g.key(spans[i]);
    lemma_duplicates(spans, i);
    let calls = grouping::class_members(g, spans, k);
    lemma_lists(calls);
    let make = |group: Seq<NormalizedEvent>|
        redundant::redundant_finding(trace_id, group, n_plus_one);
    if calls.len() > 0 {
        grouping::lemma_class_members(g, spans, k);
        assert(g.key(calls[0]) == k);
        lemma_context_of(calls[0].event);
        if redundant::claimed(n_plus_one, calls[0]) {
            let m = choose|m: int|
                0 <= m < n_plus_one.len() && redundant::claims(#[trigger] n_plus_one[m], calls[0]);
            assert(n_plus_one[m].pattern.template == spans[i].template@);
        }
        if let Some(f) = make(calls) {
            grouping::lemma_made_of_classes(g, spans, make, f);
        }
    }
}

proof fn lemma_duplicates(spans: Seq<NormalizedEvent>, i: int)
    requires
        0 <= i < spans.len(),
    ensures
        ({
            let kind = spans[i].event.event_type;
            let template = spans[i].template@;
            let params = spans[i].params@.map_values(|p: String| p@);
            let identity = spans[i].event.identity();
            grouping::class_members(
                ExactDuplicates {  },
                spans,
                ExactDuplicates {  }.key(spans[i]),
            ) == spans.filter(
                |s: NormalizedEvent|
                    s.event.event_type == kind && s.template@ == template && s.params@.map_values(
                        |p: String| p@,
                    ) == params && s.event.identity() == identity && !(kind is Sql
                        && s.session_command),
            )
        }),
{
    let g = ExactDuplicates {  };
    let k = g.key(spans[i]);
    let kind = spans[i].event.event_type;
    let template = spans[i].template@;
    let params = spans[i].params@.map_values(|p: String| p@);
    let identity = spans[i].event.identity();
    let test = |s: NormalizedEvent|
        s.event.event_type == kind && s.template@ == template && s.params@.map_values(
            |p: String| p@,
        ) == params && s.event.identity() == identity && !(kind is Sql && s.session_command);
    assert(event::texts(spans[i].params@) =~= params);
    assert forall|s: NormalizedEvent| spans.contains(s) implies (#[trigger] test(s)
        == grouping::in_class(g, k)(s)) by {
        assert(event::texts(s.params@) =~= s.params@.map_values(|p: String| p@));
    }
    permutation::lemma_filter_same(spans, test, grouping::in_class(g, k));
}

/// Every redundant finding is about some span: it counts the spans that agree with that one in
/// kind, template, every parameter and grouping attribute, of which there are two or more, and no
/// N+1 finding claims the operation. There is one finding for each such set of spans.
pub proof fn law_redundant_findings_stem_from_duplicates(
    trace_id: Seq<char>,
    spans: Seq<NormalizedEvent>,
    n_plus_one: Seq<FindingView>,
    f: FindingView,
)
    ensures
        redundant::redundant_findings(trace_id, spans, n_plus_one).contains(f) ==> exists|i: int|
            0 <= i < spans.len() && f.pattern.occurrences >= 2 && f.pattern.template == (
            #[trigger] spans[i]).template@ && f.finding_type == (match spans[i].event.event_type {
                EventType::Sql => FindingType::RedundantSql,
                EventType::HttpOut => FindingType::RedundantHttp,
            }) && f.identity() == spans[i].event.identity() && f.pattern.occurrences
                == spans.filter(
                |s: NormalizedEvent|
                    s.event.event_type == spans[i].event.event_type && s.template@
                        == spans[i].template@ && s.params@.map_values(|p: String| p@)
                        == spans[i].params@.map_values(|p: String| p@) && s.event.identity()
                        == spans[i].event.identity() && !(s.event.event_type is Sql
                        && s.session_command),
            ).len() && forall|m: int|
                0 <= m < n_plus_one.len() && (#[trigger] n_plus_one[m]).pattern.template
                    == spans[i].template@ && n_plus_one[m].identity() == spans[i].event.identity()
                    ==> n_plus_one[m].finding_type != (match spans[i].event.event_type {
                    EventType::Sql => FindingType::NPlusOneSql,
                    EventType::HttpOut => FindingType::NPlusOneHttp,
                }),
        redundant::redundant_findings(trace_id, spans, n_plus_one).len()
            == grouping::positions(spans.len()).filter(
            |i: int|
                grouping::leads(ExactDuplicates {  }, spans, i) && redundant::redundant_finding(
                    trace_id,
                    grouping::class_members(
                        ExactDuplicates {  },
                        spans,
                        ExactDuplicates {  }.key(spans[i]),
                    ),
                    n_plus_one,
                ) is Some,
        ).len(),
{
    let g = ExactDuplicates {  };
    let make = |group: Seq<NormalizedEvent>|
        redundant::redundant_finding(trace_id, group, n_plus_one);
    grouping::lemma_number_made_of_classes(g, spans, make);
    permutation::lemma_filter_same(
        grouping::positions(spans.len()),
        |i: int|
            grouping::leads(g, spans, i) && make(
                grouping::class_members(g, spans, g.key(spans[i])),
            ) is Some,
        |i: int|
            grouping::leads(ExactDuplicates {  }, spans, i) && redundant::redundant_finding(
                trace_id,
                grouping::class_members(
                    ExactDuplicates {  },
                    spans,
                    ExactDuplicates {  }.key(spans[i]),
                ),
                n_plus_one,
            ) is Some,
    );
    if redundant::redundant_findings(trace_id, spans, n_plus_one).contains(f) {
        grouping::lemma_made_of_classes(g, spans, make, f);
        let k = choose|
            k: (EventType, Seq<char>, Seq<Seq<char>>, Option<(Seq<char>, Seq<char>)>),
        |
            #![trigger grouping::class_members(g, spans, k)]
            grouping::class_members(g, spans, k).len() > 0 && make(
                grouping::class_members(g, spans, k),
            ) == Some(f);
        let calls = grouping::class_members(g, spans, k);
        grouping::lemma_class_members(g, spans, k);
        assert(g.key(calls[0]) == k);
        lemma_kept(spans, grouping::in_class(g, k));
        let i = choose|i: int| 0 <= i < spans.len() && spans[i] == calls[0];
        lemma_duplicates(spans, i);
        let kind = spans[i].event.event_type;
        let template = spans[i].template@;
        let params = spans[i].params@.map_values(|p: String| p@);
        let identity = spans[i].event.identity();
        permutation::lemma_filter_same(
            spans,
            |s: NormalizedEvent|
                s.event.event_type == kind && s.template@ == template && s.params@.map_values(
                    |p: String| p@,
                ) == params && s.event.identity() == identity && !(kind is Sql
                    && s.session_command),
            |s: NormalizedEvent|
                s.event.event_type == spans[i].event.event_type && s.template@
                    == spans[i].template@ && s.params@.map_values(|p: String| p@)
                    == spans[i].params@.map_values(|p: String| p@) && s.event.identity()
                    == spans[i].event.identity() && !(s.event.event_type is Sql
                    && s.session_command),
        );
        assert(!redundant::claimed(n_plus_one, calls[0]));
        assert forall|m: int|
            0 <= m < n_plus_one.len() && (#[trigger] n_plus_one[m]).pattern.template
                == spans[i].template@ && n_plus_one[m].identity()
                == spans[i].event.identity() implies n_plus_one[m].finding_type != (match
        spans[i].event.event_type {
            EventType::Sql => FindingType::NPlusOneSql,
            EventType::HttpOut => FindingType::NPlusOneHttp,
        }) by {
            assert(!redundant::claims(n_plus_one[m], calls[0]));
        }
        assert(f.identity() == spans[i].event.identity());
    }
}

/// A parent is a fanout finding if and only if more spans than allowed name it as their parent. The
/// finding is told by the parent itself or, where the trace lacks it, by its first child.
pub proof fn law_fanout_on_the_spans(
    trace_id: Seq<char>,
    spans: &Vec<NormalizedEvent>,
    max_fanout: nat,
    parent: Seq<char>,
)
    ensures
        ({
            let found = fanout::fanout_findings(trace_id, spans, max_fanout);
            let children = spans@.filter(
                |s: NormalizedEvent|
                    s.event.parent_span_id is Some && s.event.parent_span_id->0@ == parent,
            );
            let n = children.len();
            let ts = children.map_values(|s: NormalizedEvent| s.event.timestamp@);
            let own = indices::span_with_id(spans@, parent);
            let context = if own is Some {
                own->0.event
            } else {
                children[0].event
            };
            let expected = FindingView {
                finding_type: FindingType::ExcessiveFanout,
                severity: if n > 3 * max_fanout {
                    Severity::Critical
                } else {
                    Severity::Warning
                },
                trace_id,
                service: context.service@,
                grouping: context.grouping@.map_values(|a: GroupingAttribute| (a.key@, a.value@)),
                source_endpoint: context.source.endpoint@,
                pattern: PatternView {
                    template: if own is Some {
                        own->0.template@
                    } else {
                        "parent:"@ + parent
                    },
                    occurrences: n,
                    window_ms: measure::window(ts),
                    distinct_params: n,
                    occurrences_by_service: Seq::empty(),
                },
                suggestion: "Parent span has "@ + text::decimal(n) + " children (threshold: "@
                    + text::decimal(max_fanout)
                    + "). Consider batching child operations to reduce fanout."@,
                first_timestamp: measure::earliest(ts),
                last_timestamp: measure::latest(ts),
                green_impact: None,
                confidence: Confidence::CiBatch,
                classification_method: None,
                code_location: None,
                instrumentation_scopes: Seq::empty(),
                suggested_fix: None,
                signature: Seq::empty(),
            };
            n > max_fanout ==> found.contains(expected)
        }),
{
    let g = SiblingPositions { spans };
    let all = indices::first_positions(spans@.len());
    let make = |children: Seq<usize>|
        fanout::fanout_finding(trace_id, spans@, children, max_fanout);
    let test = |s: NormalizedEvent|
        s.event.parent_span_id is Some && s.event.parent_span_id->0@ == parent;
    let at = grouping::class_members(g, all, Some(parent));
    indices::lemma_children(spans, parent);
    let children = spans@.filter(test);
    assert(grouping::at_positions(spans@, at) == children);
    lemma_lists(children);
    if children.len() > 0 {
        lemma_kept(spans@, test);
        assert(children[0] == spans@[at[0] as int]);
        assert(test(children[0]));
        match indices::span_with_id(spans@, parent) {
            Some(s) => lemma_context_of(s.event),
            None => lemma_context_of(children[0].event),
        }
        if let Some(f) = make(at) {
            grouping::lemma_made_of_classes(g, all, make, f);
        }
    }
}

/// Every fanout finding is about a parent that more spans than allowed name.
pub proof fn law_fanout_findings_stem_from_parents(
    trace_id: Seq<char>,
    spans: &Vec<NormalizedEvent>,
    max_fanout: nat,
    f: FindingView,
)
    ensures
        fanout::fanout_findings(trace_id, spans, max_fanout).contains(f) ==> f.finding_type
            is ExcessiveFanout && f.trace_id == trace_id && exists|i: int|
            0 <= i < spans@.len() && (#[trigger] spans@[i]).event.parent_span_id is Some
                && f.pattern.occurrences > max_fanout && f.pattern.occurrences == spans@.filter(
                |s: NormalizedEvent|
                    s.event.parent_span_id is Some && s.event.parent_span_id->0@
                        == spans@[i].event.parent_span_id->0@,
            ).len(),
        fanout::fanout_findings(trace_id, spans, max_fanout).len() == grouping::positions(
            indices::first_positions(spans@.len()).len(),
        ).filter(
            |i: int|
                grouping::leads(
                    SiblingPositions { spans },
                    indices::first_positions(spans@.len()),
                    i,
                ) && fanout::fanout_finding(
                    trace_id,
                    spans@,
                    grouping::class_members(
                        SiblingPositions { spans },
                        indices::first_positions(spans@.len()),
                        SiblingPositions { spans }.key(
                            indices::first_positions(spans@.len())[i],
                        ),
                    ),
                    max_fanout,
                ) is Some,
        ).len(),
{
    let g = SiblingPositions { spans };
    let all = indices::first_positions(spans@.len());
    let make = |children: Seq<usize>|
        fanout::fanout_finding(trace_id, spans@, children, max_fanout);
    grouping::lemma_number_made_of_classes(g, all, make);
    permutation::lemma_filter_same(
        grouping::positions(all.len()),
        |i: int|
            grouping::leads(g, all, i) && make(
                grouping::class_members(g, all, g.key(all[i])),
            ) is Some,
        |i: int|
            grouping::leads(
                SiblingPositions { spans },
                indices::first_positions(spans@.len()),
                i,
            ) && fanout::fanout_finding(
                trace_id,
                spans@,
                grouping::class_members(
                    SiblingPositions { spans },
                    indices::first_positions(spans@.len()),
                    SiblingPositions { spans }.key(indices::first_positions(spans@.len())[i]),
                ),
                max_fanout,
            ) is Some,
    );
    if fanout::fanout_findings(trace_id, spans, max_fanout).contains(f) {
        grouping::lemma_made_of_classes(g, all, make, f);
        let k = choose|k: Option<Seq<char>>|
            #![trigger grouping::class_members(g, all, k)]
            grouping::class_members(g, all, k).len() > 0 && make(
                grouping::class_members(g, all, k),
            ) == Some(f);
        let at = grouping::class_members(g, all, k);
        grouping::lemma_class_members(g, all, k);
        assert(g.included(at[0]) && g.key(at[0]) == k);
        let p = k->0;
        indices::lemma_children(spans, p);
        let i = at[0] as int;
        assert(0 <= i < spans@.len());
        permutation::lemma_filter_same(
            spans@,
            |s: NormalizedEvent|
                s.event.parent_span_id is Some && s.event.parent_span_id->0@ == p,
            |s: NormalizedEvent|
                s.event.parent_span_id is Some && s.event.parent_span_id->0@
                    == spans@[i].event.parent_span_id->0@,
        );
        assert(spans@[i].event.parent_span_id is Some);
    }
}

/// A trace is a chatty finding if and only if it has more outbound HTTP calls than allowed. The
/// finding counts the calls and their distinct targets.
pub proof fn law_chatty_traces_on_the_spans(
    trace_id: Seq<char>,
    spans: Seq<NormalizedEvent>,
    min_calls: nat,
)
    ensures
        ({
            let found = chatty::chatty_findings(trace_id, spans, min_calls);
            let calls = spans.filter(|s: NormalizedEvent| s.event.event_type is HttpOut);
            let n = calls.len();
            let ts = calls.map_values(|s: NormalizedEvent| s.event.timestamp@);
            let first = calls[0].event;
            &&& n <= min_calls ==> found.len() == 0
            &&& n > min_calls ==> found.len() == 1 && found[0] == (FindingView {
                finding_type: FindingType::ChattyService,
                severity: if n > 3 * min_calls {
                    Severity::Critical
                } else {
                    Severity::Warning
                },
                trace_id,
                service: first.service@,
                grouping: first.grouping@.map_values(|a: GroupingAttribute| (a.key@, a.value@)),
                source_endpoint: first.source.endpoint@,
                pattern: PatternView {
                    template: first.source.endpoint@,
                    occurrences: n,
                    window_ms: measure::window(ts),
                    distinct_params: calls.map_values(
                        |s: NormalizedEvent| s.template@,
                    ).to_set().len(),
                    occurrences_by_service: Seq::empty(),
                },
                suggestion: "Chatty trace: "@ + first.source.endpoint@ + " triggers "@
                    + text::decimal(n) + " inter-service HTTP calls (top: "@ + chatty::top_targets(
                    grouping::groups(HttpTargets {  }, spans),
                )
                    + "). Consider aggregating calls with a batch endpoint or a BFF (Backend for Frontend) layer"@,
                first_timestamp: measure::earliest(ts),
                last_timestamp: measure::latest(ts),
                green_impact: None,
                confidence: Confidence::CiBatch,
                classification_method: None,
                code_location: None,
                instrumentation_scopes: Seq::empty(),
                suggested_fix: None,
                signature: Seq::empty(),
            })
        }),
{
    let test = |s: NormalizedEvent| s.event.event_type is HttpOut;
    let calls = spans.filter(test);
    permutation::lemma_filter_same(spans, test, chatty::is_http());
    lemma_lists(calls);
    if calls.len() > 0 {
        lemma_context_of(calls[0].event);
    }
    lemma_targets(spans);
}

proof fn lemma_targets(spans: Seq<NormalizedEvent>)
    ensures
        grouping::groups(HttpTargets {  }, spans).len() == spans.filter(
            |s: NormalizedEvent| s.event.event_type is HttpOut,
        ).map_values(|s: NormalizedEvent| s.template@).to_set().len(),
{
    let g = HttpTargets {  };
    let keys = grouping::classes(g, spans);
    let test = |s: NormalizedEvent| s.event.event_type is HttpOut;
    let calls = spans.filter(test);
    let names = calls.map_values(|s: NormalizedEvent| s.template@);
    grouping::lemma_classes_distinct(g, spans);
    keys.unique_seq_to_set();
    assert(keys.to_set() =~= names.to_set()) by {
        assert forall|x: Seq<char>| keys.to_set().contains(x) <==> names.to_set().contains(x) by {
            grouping::lemma_class_listed(g, spans, x);
            if keys.contains(x) {
                let i = choose|i: int|
                    0 <= i < spans.len() && g.included(#[trigger] spans[i]) && g.key(spans[i])
                        == x;
                permutation::lemma_filter_contains(spans, test, spans[i]);
                assert(spans.contains(spans[i]));
                let m = choose|m: int| 0 <= m < calls.len() && calls[m] == spans[i];
                assert(names[m] == x);
            }
            if names.contains(x) {
                let m = choose|m: int| 0 <= m < names.len() && names[m] == x;
                assert(calls.contains(calls[m]));
                permutation::lemma_filter_contains(spans, test, calls[m]);
                let i = choose|i: int| 0 <= i < spans.len() && spans[i] == calls[m];
                assert(g.included(spans[i]) && g.key(spans[i]) == x);
            }
        }
    }
}

/// A pool, given by its service and grouping attribute, is a saturation finding if and only if it
/// has SQL spans and as many of them as the threshold says run at one instant.
pub proof fn law_saturated_pools_on_the_spans(
    trace_id: Seq<char>,
    spans: Seq<NormalizedEvent>,
    threshold: nat,
    service: Seq<char>,
    identity: Option<(Seq<char>, Seq<char>)>,
)
    ensures
        ({
            let found = pool_saturation::pool_findings(trace_id, spans, threshold);
            let queries = spans.filter(
                |s: NormalizedEvent|
                    s.event.event_type is Sql && s.event.service@ == service && s.event.identity()
                        == identity,
            );
            let peak = pool_saturation::peak_concurrency(queries);
            let ts = queries.map_values(|s: NormalizedEvent| s.event.timestamp@);
            let first = queries[0].event;
            let reported = queries.len() > 0 && peak >= threshold;
            let expected = FindingView {
                finding_type: FindingType::PoolSaturation,
                severity: Severity::Warning,
                trace_id,
                service,
                grouping: first.grouping@.map_values(|a: GroupingAttribute| (a.key@, a.value@)),
                source_endpoint: first.source.endpoint@,
                pattern: PatternView {
                    template: service,
                    occurrences: peak,
                    window_ms: measure::window(ts),
                    distinct_params: queries.len(),
                    occurrences_by_service: Seq::empty(),
                },
                suggestion: "Potential connection pool saturation: service "@ + service + " has "@
                    + text::decimal(peak) + " concurrent SQL spans within "@ + text::decimal(
                    measure::window(ts) as nat,
                )
                    + "ms window. Consider increasing the connection pool size, optimizing long-running queries or using connection pool metrics (db.client.connection.pool.*) for precise monitoring"@,
                first_timestamp: measure::earliest(ts),
                last_timestamp: measure::latest(ts),
                green_impact: None,
                confidence: Confidence::CiBatch,
                classification_method: None,
                code_location: None,
                instrumentation_scopes: Seq::empty(),
                suggested_fix: None,
                signature: Seq::empty(),
            };
            &&& reported ==> found.contains(expected)
            &&& forall|f: FindingView| #[trigger]
                found.contains(f) && f.service == service && f.identity() == identity ==> reported
                    && f == expected
            &&& forall|f: FindingView| #[trigger]
                found.contains(f) ==> f.finding_type is PoolSaturation
        }),
{
    let g = SqlPools {  };
    let k = (service, identity);
    let make = |group: Seq<NormalizedEvent>|
        pool_saturation::pool_finding(trace_id, group, threshold);
    let test = |s: NormalizedEvent|
        s.event.event_type is Sql && s.event.service@ == service && s.event.identity() == identity;
    let queries = spans.filter(test);
    permutation::lemma_filter_same(spans, test, grouping::in_class(g, k));
    lemma_kept(spans, test);
    lemma_lists(queries);
    if queries.len() > 0 {
        assert(test(queries[0]));
        lemma_context_of(queries[0].event);
        if let Some(f) = make(queries) {
            grouping::lemma_made_of_classes(g, spans, make, f);
            assert(grouping::class_members(g, spans, k) == queries);
        }
    }
    let found = pool_saturation::pool_findings(trace_id, spans, threshold);
    assert forall|f: FindingView| #[trigger] found.contains(f) implies f.finding_type
        is PoolSaturation && (f.service == service && f.identity() == identity ==> queries.len() > 0
        && make(queries) == Some(f)) by {
        grouping::lemma_made_of_classes(g, spans, make, f);
        let m = choose|m: (Seq<char>, Option<(Seq<char>, Seq<char>)>)|
            #![trigger grouping::class_members(g, spans, m)]
            grouping::class_members(g, spans, m).len() > 0 && make(
                grouping::class_members(g, spans, m),
            ) == Some(f);
        grouping::lemma_class_members(g, spans, m);
        assert(g.key(grouping::class_members(g, spans, m)[0]) == m);
        assert(f.service == m.0 && f.identity() == m.1);
    }
}

} // verus!

//! What the detection stage promises of any workload.

use crate::config::Config;
use crate::detect;
use crate::detect::chatty;
use crate::detect::fanout;
use crate::detect::finding;
use crate::detect::finding::{ClassificationMethod, Confidence, FindingKey};
use crate::detect::grouping;
use crate::detect::grouping::Classifier;
use crate::detect::indices;
use crate::detect::measure;
use crate::detect::measure::ByTemplate;
use crate::detect::n_plus_one;
use crate::detect::pool_saturation;
use crate::detect::redundant;
use crate::detect::redundant::ExactDuplicates;
use crate::detect::sanitizer_aware;
use crate::detect::sanitizer_aware::SanitizerAwareMode;
use crate::detect::serialized;
use crate::detect::slow;
use crate::detect::slow::{AcrossTraces, SpanPosition};
use crate::detect::suggestions;
use crate::detect::{DetectConfig, Finding, FindingType, FindingView};
use crate::event;
use crate::event::{EventType, NormalizedEvent, Trace};
use crate::order;
use crate::permutation;
use crate::text;
use vstd::prelude::*;

verus! {

proof fn lemma_plain_additive(a: Seq<Trace>, b: Seq<Trace>, config: DetectConfig)
    ensures
        detect::plain_findings(a + b, config) == detect::plain_findings(a, config)
            + detect::plain_findings(b, config),
    decreases b.len(),
{
    if b.len() == 0 {
        assert(a + b =~= a);
        assert(detect::plain_findings(a, config) + detect::plain_findings(b, config)
            =~= detect::plain_findings(a, config));
    } else {
        lemma_plain_additive(a, b.drop_last(), config);
        assert((a + b).drop_last() =~= a + b.drop_last());
        assert(detect::plain_findings(a + b, config) =~= detect::plain_findings(a, config)
            + detect::plain_findings(b, config));
    }
}

/// Per-trace detection over several traces is the union of what it finds in each: sampling whole
/// traces never creates a finding.
pub proof fn law_detection_is_additive(a: Seq<Trace>, b: Seq<Trace>, config: DetectConfig)
    ensures
        detect::detected(a + b, config) == detect::detected(a, config) + detect::detected(
            b,
            config,
        ),
{
    lemma_plain_additive(a, b, config);
    assert(detect::detected(a + b, config) =~= detect::detected(a, config) + detect::detected(
        b,
        config,
    ));
}

/// Detection on one trace alone looks at no other: the full detection reports what the per-trace
/// detection does.
pub proof fn law_one_trace_has_no_cross_trace_findings(traces: &[Trace], config: DetectConfig)
    requires
        traces@.len() <= 1,
    ensures
        detect::fully_detected(traces, config) == detect::detected(traces@, config),
{
    assert(detect::fully_detected(traces, config) =~= detect::detected(traces@, config));
}

/// No traces, no findings.
pub proof fn law_no_traces_no_findings(config: DetectConfig)
    ensures
        detect::detected(Seq::empty(), config).len() == 0,
{
}

/// What renames the trace of a finding.
pub open spec fn renamed(trace_id: Seq<char>) -> spec_fn(FindingView) -> FindingView {
    |f: FindingView| f.in_trace(trace_id)
}

proof fn lemma_renamed<A>(
    s: Seq<A>,
    f: spec_fn(A) -> Option<FindingView>,
    g: spec_fn(A) -> Option<FindingView>,
    trace_id: Seq<char>,
)
    requires
        forall|a: A| #[trigger] g(a) == permutation::mapped(f(a), renamed(trace_id)),
    ensures
        s.filter_map(g) == s.filter_map(f).map_values(renamed(trace_id)),
{
    permutation::lemma_map_of_filter_map(s, f, renamed(trace_id));
    permutation::lemma_filter_map_same(
        s,
        g,
        |a: A| permutation::mapped(f(a), renamed(trace_id)),
    );
}

proof fn lemma_n_plus_one_renamed(
    a: Seq<char>,
    b: Seq<char>,
    spans: Seq<NormalizedEvent>,
    config: DetectConfig,
)
    ensures
        n_plus_one::n_plus_one_findings(
            b,
            spans,
            config.n_plus_one_threshold as nat,
            config.window_ms,
            config.sanitizer_aware_classification,
        ) == n_plus_one::n_plus_one_findings(
            a,
            spans,
            config.n_plus_one_threshold as nat,
            config.window_ms,
            config.sanitizer_aware_classification,
        ).map_values(renamed(b)),
{
    let n = config.n_plus_one_threshold as nat;
    let (w, m) = (config.window_ms, config.sanitizer_aware_classification);
    lemma_renamed(
        grouping::groups(ByTemplate {  }, spans),
        |group: Seq<NormalizedEvent>| n_plus_one::n_plus_one_finding(a, group, n, w, m),
        |group: Seq<NormalizedEvent>| n_plus_one::n_plus_one_finding(b, group, n, w, m),
        b,
    );
}

proof fn lemma_redundant_renamed(
    a: Seq<char>,
    b: Seq<char>,
    spans: Seq<NormalizedEvent>,
    found: Seq<FindingView>,
)
    ensures
        redundant::redundant_findings(b, spans, found.map_values(renamed(b)))
            == redundant::redundant_findings(a, spans, found).map_values(renamed(b)),
{
    let other = found.map_values(renamed(b));
    assert forall|span: NormalizedEvent| redundant::claimed(other, span)
        == #[trigger] redundant::claimed(found, span) by {
        if redundant::claimed(found, span) {
            let i = choose|i: int|
                0 <= i < found.len() && redundant::claims(#[trigger] found[i], span);
            assert(redundant::claims(other[i], span));
        }
        if redundant::claimed(other, span) {
            let i = choose|i: int|
                0 <= i < other.len() && redundant::claims(#[trigger] other[i], span);
            assert(redundant::claims(found[i], span));
        }
    }
    lemma_renamed(
        grouping::groups(ExactDuplicates {  }, spans),
        |group: Seq<NormalizedEvent>| redundant::redundant_finding(a, group, found),
        |group: Seq<NormalizedEvent>| redundant::redundant_finding(b, group, other),
        b,
    );
}

proof fn lemma_slow_renamed(
    a: Seq<char>,
    b: Seq<char>,
    spans: Seq<NormalizedEvent>,
    config: DetectConfig,
)
    ensures
        slow::slow_findings(
            b,
            spans,
            config.slow_threshold_ms,
            config.slow_min_occurrences as nat,
        ) == slow::slow_findings(
            a,
            spans,
            config.slow_threshold_ms,
            config.slow_min_occurrences as nat,
        ).map_values(renamed(b)),
{
    let limit = slow::threshold_us(config.slow_threshold_ms);
    let n = config.slow_min_occurrences as nat;
    lemma_renamed(
        grouping::groups(slow::SlowSpans { threshold_us: limit }, spans),
        |group: Seq<NormalizedEvent>| slow::slow_finding(a, group, limit, n),
        |group: Seq<NormalizedEvent>| slow::slow_finding(b, group, limit, n),
        b,
    );
}

proof fn lemma_tree_renamed(
    a: Seq<char>,
    b: Seq<char>,
    spans: &Vec<NormalizedEvent>,
    config: DetectConfig,
)
    ensures
        fanout::fanout_findings(b, spans, config.max_fanout as nat) == fanout::fanout_findings(
            a,
            spans,
            config.max_fanout as nat,
        ).map_values(renamed(b)),
        serialized::serialized_findings(b, spans, config.serialized_min_sequential as nat)
            == serialized::serialized_findings(
            a,
            spans,
            config.serialized_min_sequential as nat,
        ).map_values(renamed(b)),
{
    let siblings = indices::sibling_groups(spans);
    let n = config.max_fanout as nat;
    let m = config.serialized_min_sequential as nat;
    lemma_renamed(
        siblings,
        |children: Seq<usize>| fanout::fanout_finding(a, spans@, children, n),
        |children: Seq<usize>| fanout::fanout_finding(b, spans@, children, n),
        b,
    );
    lemma_renamed(
        siblings,
        |children: Seq<usize>| serialized::serialized_finding(a, spans@, children, m),
        |children: Seq<usize>| serialized::serialized_finding(b, spans@, children, m),
        b,
    );
}

proof fn lemma_service_renamed(
    a: Seq<char>,
    b: Seq<char>,
    spans: Seq<NormalizedEvent>,
    config: DetectConfig,
)
    ensures
        chatty::chatty_findings(b, spans, config.chatty_service_min_calls as nat)
            == chatty::chatty_findings(
            a,
            spans,
            config.chatty_service_min_calls as nat,
        ).map_values(renamed(b)),
        pool_saturation::pool_findings(
            b,
            spans,
            config.pool_saturation_concurrent_threshold as nat,
        ) == pool_saturation::pool_findings(
            a,
            spans,
            config.pool_saturation_concurrent_threshold as nat,
        ).map_values(renamed(b)),
{
    let n = config.pool_saturation_concurrent_threshold as nat;
    assert(chatty::chatty_findings(b, spans, config.chatty_service_min_calls as nat)
        =~= chatty::chatty_findings(
        a,
        spans,
        config.chatty_service_min_calls as nat,
    ).map_values(renamed(b)));
    lemma_renamed(
        grouping::groups(pool_saturation::SqlPools {  }, spans),
        |group: Seq<NormalizedEvent>| pool_saturation::pool_finding(a, group, n),
        |group: Seq<NormalizedEvent>| pool_saturation::pool_finding(b, group, n),
        b,
    );
}

/// The same spans under another trace id yield the same findings under that id: nothing leaks
/// between traces.
pub proof fn law_trace_id_only_names_the_findings(t: Trace, u: Trace, config: DetectConfig)
    requires
        t.spans == u.spans,
    ensures
        detect::trace_findings(u, config) == detect::trace_findings(t, config).map_values(
            renamed(u.trace_id@),
        ),
{
    reveal(detect::trace_findings);
    let (a, b) = (t.trace_id@, u.trace_id@);
    let found = n_plus_one::n_plus_one_findings(
        a,
        t.spans@,
        config.n_plus_one_threshold as nat,
        config.window_ms,
        config.sanitizer_aware_classification,
    );
    lemma_n_plus_one_renamed(a, b, t.spans@, config);
    lemma_redundant_renamed(a, b, t.spans@, found);
    lemma_slow_renamed(a, b, t.spans@, config);
    lemma_tree_renamed(a, b, &t.spans, config);
    lemma_service_renamed(a, b, t.spans@, config);
    assert(detect::trace_findings(u, config) =~= detect::trace_findings(t, config).map_values(
        renamed(b),
    ));
}

proof fn lemma_one_trace(t: Trace, config: DetectConfig)
    ensures
        detect::plain_findings(seq![t], config) == detect::trace_findings(t, config),
{
    assert(seq![t].drop_last() =~= Seq::empty());
    assert(detect::plain_findings(Seq::<Trace>::empty(), config) =~= Seq::empty());
    assert(detect::plain_findings(seq![t], config) =~= detect::trace_findings(t, config));
}

/// Feeding the same spans again under a new trace id exactly doubles the findings of every class.
pub proof fn law_duplicating_a_trace_doubles_the_findings(
    t: Trace,
    u: Trace,
    config: DetectConfig,
)
    requires
        t.spans == u.spans,
    ensures
        finding::finding_keys(detect::detected(seq![t, u], config)) == finding::finding_keys(
            detect::detected(seq![t], config),
        ) + finding::finding_keys(detect::detected(seq![t], config)),
{
    law_detection_is_additive(seq![t], seq![u], config);
    assert(seq![t] + seq![u] =~= seq![t, u]);
    law_trace_id_only_names_the_findings(t, u, config);
    lemma_one_trace(t, config);
    lemma_one_trace(u, config);
    let first = detect::trace_findings(t, config);
    let second = detect::trace_findings(u, config);
    assert forall|i: int| 0 <= i < first.len() implies (#[trigger] second[i]).key()
        == first[i].key() by {
    }
    let x = detect::detected(seq![t], config);
    let y = detect::detected(seq![u], config);
    assert(x == suggestions::all_enriched(first));
    assert(y == suggestions::all_enriched(second));
    assert forall|i: int| 0 <= i < first.len() implies (#[trigger] x[i]).key() == first[i].key()
        && y[i].key() == second[i].key() by {
    }
    assert(finding::finding_keys(x) =~= finding::finding_keys(y));
    assert(finding::finding_keys(x + y) =~= finding::finding_keys(x) + finding::finding_keys(y));
}

/// The order in which sorting puts findings is a permutation of them, in listing order; sorting
/// again changes nothing.
pub proof fn law_sorting_is_an_ordered_permutation(findings: Seq<Finding>)
    ensures
        order::ranked(findings).to_multiset() == findings.to_multiset(),
        order::ranked(findings).len() == findings.len(),
        forall|i: int, j: int|
            #![trigger order::ranked(findings)[i], order::ranked(findings)[j]]
            0 <= i < j < findings.len() ==> detect::listed_before(
                order::ranked(findings)[i]@,
                order::ranked(findings)[j]@,
            ),
        order::ranked(order::ranked(findings)) == order::ranked(findings),
{
    order::lemma_ranked(findings);
    order::lemma_ranked_fixed(order::ranked(findings));
    let r = order::ranked(findings);
    assert forall|i: int, j: int|
        #![trigger r[i], r[j]]
        0 <= i < j < findings.len() implies detect::listed_before(r[i]@, r[j]@) by {
        assert(order::Ranked::rank_le(&r[i], &r[j]));
    }
}

/// The class of operations that an N+1 finding is about.
pub open spec fn n_plus_one_class(
    spans: Seq<NormalizedEvent>,
    k: (EventType, Seq<char>),
) -> Seq<NormalizedEvent> {
    grouping::class_members(ByTemplate {  }, spans, k)
}

/// The N+1 finding on one class of operations.
pub open spec fn class_finding(
    trace_id: Seq<char>,
    spans: Seq<NormalizedEvent>,
    threshold: nat,
    window_limit: u64,
    mode: SanitizerAwareMode,
) -> spec_fn((EventType, Seq<char>)) -> Option<FindingView> {
    |k: (EventType, Seq<char>)|
        n_plus_one::n_plus_one_finding(
            trace_id,
            n_plus_one_class(spans, k),
            threshold,
            window_limit,
            mode,
        )
}

proof fn lemma_by_class(
    trace_id: Seq<char>,
    spans: Seq<NormalizedEvent>,
    threshold: nat,
    window_limit: u64,
    mode: SanitizerAwareMode,
)
    ensures
        n_plus_one::n_plus_one_findings(trace_id, spans, threshold, window_limit, mode)
            == grouping::classes(ByTemplate {  }, spans).filter_map(
            class_finding(trace_id, spans, threshold, window_limit, mode),
        ),
{
    let keys = grouping::classes(ByTemplate {  }, spans);
    let members = |k: (EventType, Seq<char>)| grouping::class_members(ByTemplate {  }, spans, k);
    let f = |group: Seq<NormalizedEvent>|
        n_plus_one::n_plus_one_finding(trace_id, group, threshold, window_limit, mode);
    permutation::lemma_filter_map_of_map(keys, members, f);
    permutation::lemma_filter_map_same(
        keys,
        |k: (EventType, Seq<char>)| f(members(k)),
        class_finding(trace_id, spans, threshold, window_limit, mode),
    );
}

/// A class of operations has spans of its kind and template only.
proof fn lemma_class_uniform(spans: Seq<NormalizedEvent>, k: (EventType, Seq<char>))
    ensures
        n_plus_one_class(spans, k).len() <= spans.len(),
        forall|i: int|
            0 <= i < n_plus_one_class(spans, k).len() ==> (#[trigger] n_plus_one_class(
                spans,
                k,
            )[i]).event.event_type == k.0 && n_plus_one_class(spans, k)[i].template@ == k.1,
        grouping::classes(ByTemplate {  }, spans).contains(k) <==> n_plus_one_class(
            spans,
            k,
        ).len() > 0,
{
    let members = n_plus_one_class(spans, k);
    grouping::lemma_class_members(ByTemplate {  }, spans, k);
    assert forall|i: int| 0 <= i < members.len() implies (
    #[trigger] members[i]).event.event_type == k.0 && members[i].template@ == k.1 by {
        assert(ByTemplate {  }.key(members[i]) == k);
    }
}

proof fn lemma_timestamps_permutation(s: Seq<NormalizedEvent>, t: Seq<NormalizedEvent>)
    requires
        s.to_multiset() == t.to_multiset(),
    ensures
        measure::window(measure::timestamps(s)) == measure::window(measure::timestamps(t)),
{
    let stamp = |e: NormalizedEvent| e.event.timestamp@;
    let a = measure::timestamps(s);
    let b = measure::timestamps(t);
    permutation::lemma_images_permutation(s, t, stamp);
    broadcast use vstd::seq_lib::group_to_multiset_ensures;

    assert(s.len() == s.to_multiset().len());
    assert(t.len() == t.to_multiset().len());
    if a.len() >= 2 {
        measure::lemma_earliest(a);
        measure::lemma_earliest(b);
        measure::lemma_latest(a);
        measure::lemma_latest(b);
        lemma_same_bound(a, b, measure::earliest(a), measure::earliest(b));
        lemma_same_bound(b, a, measure::latest(b), measure::latest(a));
    }
}

proof fn lemma_same_bound(
    a: Seq<Seq<char>>,
    b: Seq<Seq<char>>,
    x: Seq<char>,
    y: Seq<char>,
)
    requires
        a.contains(x),
        b.contains(y),
        forall|t: Seq<char>| a.contains(t) <==> b.contains(t),
        (forall|i: int| 0 <= i < a.len() ==> !text::text_lt(#[trigger] a[i], x)) && (forall|i: int|
            0 <= i < b.len() ==> !text::text_lt(#[trigger] b[i], y)) || (forall|i: int|
            0 <= i < a.len() ==> !text::text_lt(x, #[trigger] a[i])) && (forall|i: int|
            0 <= i < b.len() ==> !text::text_lt(y, #[trigger] b[i])),
    ensures
        x == y,
{
    assert(a.contains(y) && b.contains(x));
    let i = choose|i: int| 0 <= i < a.len() && a[i] == y;
    let j = choose|j: int| 0 <= j < b.len() && b[j] == x;
    assert(a[i] == y && b[j] == x);
    text::lemma_text_lt_total(x, y);
}

proof fn lemma_params_permutation(s: Seq<NormalizedEvent>, t: Seq<NormalizedEvent>)
    requires
        s.to_multiset() == t.to_multiset(),
    ensures
        measure::distinct_params(s) == measure::distinct_params(t),
{
    permutation::lemma_images_permutation(
        s,
        t,
        |e: NormalizedEvent| event::texts(e.params@),
    );
    assert(measure::param_lists(s).to_set() =~= measure::param_lists(t).to_set());
}

proof fn lemma_durations_are_sums(s: Seq<NormalizedEvent>)
    ensures
        sanitizer_aware::total_duration(s) == permutation::sum_of(
            s,
            |e: NormalizedEvent| e.event.duration_us as nat,
        ),
        sanitizer_aware::total_square(s) == permutation::sum_of(
            s,
            |e: NormalizedEvent| e.event.duration_us as nat * e.event.duration_us as nat,
        ),
    decreases s.len(),
{
    if s.len() > 0 {
        lemma_durations_are_sums(s.drop_last());
    }
}

proof fn lemma_spread_permutation(s: Seq<NormalizedEvent>, t: Seq<NormalizedEvent>)
    requires
        s.to_multiset() == t.to_multiset(),
        s.len() == t.len(),
    ensures
        sanitizer_aware::durations_spread(s) == sanitizer_aware::durations_spread(t),
{
    lemma_durations_are_sums(s);
    lemma_durations_are_sums(t);
    permutation::lemma_sum_permutation(
        s,
        t,
        |e: NormalizedEvent| e.event.duration_us as nat,
    );
    permutation::lemma_sum_permutation(
        s,
        t,
        |e: NormalizedEvent| e.event.duration_us as nat * e.event.duration_us as nat,
    );
}

proof fn lemma_scope_carried(s: Seq<NormalizedEvent>, t: Seq<NormalizedEvent>)
    requires
        s.to_multiset() == t.to_multiset(),
        sanitizer_aware::any_orm_scope(sanitizer_aware::group_scopes(s)),
    ensures
        sanitizer_aware::any_orm_scope(sanitizer_aware::group_scopes(t)),
{
    let from = sanitizer_aware::group_scopes(s);
    let to = sanitizer_aware::group_scopes(t);
    let i = choose|i: int| 0 <= i < from.len() && sanitizer_aware::is_orm_scope(#[trigger] from[i]);
    let x = from[i];
    assert(from.contains(x));
    sanitizer_aware::lemma_group_scopes(s, x);
    sanitizer_aware::lemma_group_scopes(t, x);
    let k = choose|k: int|
        0 <= k < s.len() && event::texts((#[trigger] s[k]).event.instrumentation_scopes@).contains(
            x,
        );
    assert(s.contains(s[k]));
    permutation::lemma_contains_permutation(s, t, s[k]);
    let m = choose|m: int| 0 <= m < t.len() && t[m] == s[k];
    assert(event::texts(t[m].event.instrumentation_scopes@).contains(x));
    assert(to.contains(x));
    let j = choose|j: int| 0 <= j < to.len() && to[j] == x;
    assert(sanitizer_aware::is_orm_scope(to[j]));
}

proof fn lemma_siblings_carried(s: Seq<NormalizedEvent>, t: Seq<NormalizedEvent>)
    requires
        s.to_multiset() == t.to_multiset(),
        n_plus_one::siblings_in_sequence(s),
    ensures
        n_plus_one::siblings_in_sequence(t),
{
    permutation::lemma_contains_permutation(s, t, s[0]);
    let bounds = |e: NormalizedEvent| n_plus_one::span_bounds(e);
    permutation::lemma_filter_map_permutation(s, t, bounds);
    let a = n_plus_one::group_bounds(s);
    let b = n_plus_one::group_bounds(t);
    n_plus_one::lemma_all_disjoint_permutation(a, b);
    assert(a.len() == b.len()) by {
        broadcast use vstd::seq_lib::group_to_multiset_ensures;

        assert(a.len() == a.to_multiset().len());
        assert(b.len() == b.to_multiset().len());
    }
    assert forall|i: int| 0 <= i < t.len() implies n_plus_one::parent_of(#[trigger] t[i])
        == n_plus_one::parent_of(s[0]) by {
        assert(t.contains(t[i]));
        permutation::lemma_contains_permutation(s, t, t[i]);
        let k = choose|k: int| 0 <= k < s.len() && s[k] == t[i];
        assert(n_plus_one::parent_of(s[k]) == n_plus_one::parent_of(s[0]));
    }
    assert(n_plus_one::parent_of(t[0]) == n_plus_one::parent_of(s[0]));
}

proof fn lemma_sanitized_carried(s: Seq<NormalizedEvent>, t: Seq<NormalizedEvent>)
    requires
        s.to_multiset() == t.to_multiset(),
        sanitizer_aware::all_sanitized(s),
    ensures
        sanitizer_aware::all_sanitized(t),
{
    permutation::lemma_contains_permutation(s, t, s[0]);
    assert forall|i: int| 0 <= i < t.len() implies sanitizer_aware::is_sanitized(
        #[trigger] t[i],
    ) by {
        assert(t.contains(t[i]));
        permutation::lemma_contains_permutation(s, t, t[i]);
        let k = choose|k: int| 0 <= k < s.len() && s[k] == t[i];
        assert(sanitizer_aware::is_sanitized(s[k]));
    }
}

proof fn lemma_classification_permutation(
    s: Seq<NormalizedEvent>,
    t: Seq<NormalizedEvent>,
    k: (EventType, Seq<char>),
    threshold: nat,
    mode: SanitizerAwareMode,
)
    requires
        s.to_multiset() == t.to_multiset(),
        s.len() > 0,
        forall|i: int|
            0 <= i < s.len() ==> (#[trigger] s[i]).event.event_type == k.0 && s[i].template@ == k.1,
        forall|i: int|
            0 <= i < t.len() ==> (#[trigger] t[i]).event.event_type == k.0 && t[i].template@ == k.1,
    ensures
        s.len() == t.len(),
        n_plus_one::classification(s, threshold, mode) == n_plus_one::classification(
            t,
            threshold,
            mode,
        ),
{
    permutation::lemma_contains_permutation(s, t, s[0]);
    lemma_params_permutation(s, t);
    lemma_spread_permutation(s, t);
    if sanitizer_aware::any_orm_scope(sanitizer_aware::group_scopes(s)) {
        lemma_scope_carried(s, t);
    }
    if sanitizer_aware::any_orm_scope(sanitizer_aware::group_scopes(t)) {
        lemma_scope_carried(t, s);
    }
    if n_plus_one::siblings_in_sequence(s) {
        lemma_siblings_carried(s, t);
    }
    if n_plus_one::siblings_in_sequence(t) {
        lemma_siblings_carried(t, s);
    }
    if sanitizer_aware::all_sanitized(s) {
        lemma_sanitized_carried(s, t);
    }
    if sanitizer_aware::all_sanitized(t) {
        lemma_sanitized_carried(t, s);
    }
    assert(s[0].event.event_type == t[0].event.event_type);
    assert(s[0].template@ == t[0].template@);
}

/// The key of an optional finding.
pub open spec fn key_of(f: Option<FindingView>) -> Option<FindingKey> {
    permutation::mapped(f, |f: FindingView| f.key())
}

proof fn lemma_class_finding_permutation(
    trace_id: Seq<char>,
    s: Seq<NormalizedEvent>,
    t: Seq<NormalizedEvent>,
    k: (EventType, Seq<char>),
    threshold: nat,
    window_limit: u64,
    mode: SanitizerAwareMode,
)
    requires
        s.to_multiset() == t.to_multiset(),
        grouping::classes(ByTemplate {  }, s).contains(k),
    ensures
        key_of(class_finding(trace_id, s, threshold, window_limit, mode)(k)) == key_of(
            class_finding(trace_id, t, threshold, window_limit, mode)(k),
        ),
{
    let a = n_plus_one_class(s, k);
    let b = n_plus_one_class(t, k);
    permutation::lemma_filter_permutation(s, t, grouping::in_class(ByTemplate {  }, k));
    lemma_class_uniform(s, k);
    lemma_class_uniform(t, k);
    lemma_classification_permutation(a, b, k, threshold, mode);
    lemma_timestamps_permutation(a, b);
    assert(a[0].event.event_type == b[0].event.event_type);
    assert(a[0].template@ == b[0].template@);
}

/// The order in which spans arrive never changes what N+1 operations are found: the findings are
/// the same ones, by type, template, occurrences, distinct parameters and severity.
pub proof fn law_findings_do_not_depend_on_span_order(
    trace_id: Seq<char>,
    spans: Seq<NormalizedEvent>,
    shuffled: Seq<NormalizedEvent>,
    threshold: nat,
    window_limit: u64,
    mode: SanitizerAwareMode,
)
    requires
        spans.to_multiset() == shuffled.to_multiset(),
    ensures
        finding::finding_keys(
            n_plus_one::n_plus_one_findings(trace_id, spans, threshold, window_limit, mode),
        ).to_multiset() == finding::finding_keys(
            n_plus_one::n_plus_one_findings(trace_id, shuffled, threshold, window_limit, mode),
        ).to_multiset(),
{
    let g = ByTemplate {  };
    let s = grouping::classes(g, spans);
    let t = grouping::classes(g, shuffled);
    let f = class_finding(trace_id, spans, threshold, window_limit, mode);
    let h = class_finding(trace_id, shuffled, threshold, window_limit, mode);
    let key = |f: FindingView| f.key();
    let f_key = |k: (EventType, Seq<char>)| permutation::mapped(f(k), key);
    let h_key = |k: (EventType, Seq<char>)| permutation::mapped(h(k), key);
    lemma_by_class(trace_id, spans, threshold, window_limit, mode);
    lemma_by_class(trace_id, shuffled, threshold, window_limit, mode);
    permutation::lemma_map_of_filter_map(s, f, key);
    permutation::lemma_map_of_filter_map(t, h, key);
    assert forall|k: (EventType, Seq<char>)| s.contains(k) <==> t.contains(k) by {
        lemma_class_uniform(spans, k);
        lemma_class_uniform(shuffled, k);
        permutation::lemma_filter_permutation(spans, shuffled, grouping::in_class(g, k));
        let a = n_plus_one_class(spans, k);
        let b = n_plus_one_class(shuffled, k);
        broadcast use vstd::seq_lib::group_to_multiset_ensures;

        assert(a.len() == a.to_multiset().len());
        assert(b.len() == b.to_multiset().len());
    }
    grouping::lemma_classes_distinct(g, spans);
    grouping::lemma_classes_distinct(g, shuffled);
    permutation::lemma_same_values_permutation(s, t);
    permutation::lemma_filter_map_permutation(s, t, f_key);
    assert forall|i: int| 0 <= i < t.len() implies f_key(#[trigger] t[i]) == h_key(t[i]) by {
        assert(t.contains(t[i]));
        lemma_class_finding_permutation(
            trace_id,
            spans,
            shuffled,
            t[i],
            threshold,
            window_limit,
            mode,
        );
        assert(key_of(f(t[i])) == key_of(h(t[i])));
    }
    permutation::lemma_filter_map_same(t, f_key, h_key);
}

/// A workload in which no operation reaches the threshold yields no N+1 finding.
pub proof fn law_below_threshold_stays_silent(
    trace_id: Seq<char>,
    spans: Seq<NormalizedEvent>,
    threshold: nat,
    window_limit: u64,
    mode: SanitizerAwareMode,
)
    requires
        forall|k: (EventType, Seq<char>)| (#[trigger] n_plus_one_class(spans, k)).len() < threshold,
    ensures
        n_plus_one::n_plus_one_findings(trace_id, spans, threshold, window_limit, mode).len() == 0,
{
    let keys = grouping::classes(ByTemplate {  }, spans);
    let f = class_finding(trace_id, spans, threshold, window_limit, mode);
    lemma_by_class(trace_id, spans, threshold, window_limit, mode);
    let found = keys.filter_map(f);
    if found.len() > 0 {
        assert(found.contains(found[0]));
        permutation::lemma_filter_map_contains(keys, f, found[0]);
        let i = choose|i: int| 0 <= i < keys.len() && f(#[trigger] keys[i]) == Some(found[0]);
        assert(n_plus_one_class(spans, keys[i]).len() < threshold);
    }
}

/// Growing a class of operations that was found by its distinct parameters keeps the finding: it
/// counts every occurrence, and its severity never becomes milder.
pub proof fn law_growing_a_group_preserves_or_strengthens(
    trace_id: Seq<char>,
    spans: Seq<NormalizedEvent>,
    extra: Seq<NormalizedEvent>,
    k: (EventType, Seq<char>),
    threshold: nat,
    window_limit: u64,
    mode: SanitizerAwareMode,
)
    requires
        class_finding(trace_id, spans, threshold, window_limit, mode)(k) is Some,
        measure::distinct_params(n_plus_one_class(spans, k)) >= threshold,
        n_plus_one_class(spans, k).len() > 0,
        measure::window(measure::timestamps(n_plus_one_class(spans + extra, k))) <= window_limit,
    ensures
        ({
            let before = class_finding(trace_id, spans, threshold, window_limit, mode)(k)->0;
            let after = class_finding(trace_id, spans + extra, threshold, window_limit, mode)(k);
            &&& after is Some
            &&& after->0.pattern.occurrences == n_plus_one_class(spans + extra, k).len()
            &&& after->0.pattern.occurrences == before.pattern.occurrences + n_plus_one_class(
                extra,
                k,
            ).len()
            &&& after->0.severity.position() <= before.severity.position()
            &&& after->0.pattern.occurrences >= n_plus_one::CRITICAL_OCCURRENCE_THRESHOLD ==> (
            after->0.severity is Critical)
            &&& after->0.finding_type == before.finding_type
            &&& after->0.pattern.template == before.pattern.template
        }),
{
    let test = grouping::in_class(ByTemplate {  }, k);
    let a = n_plus_one_class(spans, k);
    let b = n_plus_one_class(extra, k);
    let all = n_plus_one_class(spans + extra, k);
    Seq::filter_distributes_over_add(spans, extra, test);
    assert(all == a + b);
    lemma_class_uniform(spans, k);
    lemma_class_uniform(spans + extra, k);
    lemma_more_params(a, b);
    assert(all[0] == a[0]);
}

proof fn lemma_more_params(a: Seq<NormalizedEvent>, b: Seq<NormalizedEvent>)
    ensures
        measure::distinct_params(a) <= measure::distinct_params(a + b),
{
    let s = measure::param_lists(a);
    let t = measure::param_lists(a + b);
    broadcast use vstd::seq_lib::seq_to_set_is_finite;

    assert(s.to_set().subset_of(t.to_set())) by {
        assert forall|x: Seq<Seq<char>>| s.to_set().contains(x) implies t.to_set().contains(x) by {
            let i = choose|i: int| 0 <= i < s.len() && s[i] == x;
            assert(t[i] == x);
            assert(t.contains(x));
        }
    }
    vstd::set_lib::lemma_len_subset(s.to_set(), t.to_set());
}

proof fn lemma_part_params(s: Seq<NormalizedEvent>, t: Seq<NormalizedEvent>)
    requires
        s.to_multiset().subset_of(t.to_multiset()),
    ensures
        measure::distinct_params(s) <= measure::distinct_params(t),
        s.len() <= t.len(),
{
    broadcast use vstd::seq_lib::group_to_multiset_ensures;
    broadcast use vstd::seq_lib::seq_to_set_is_finite;

    let a = measure::param_lists(s);
    let b = measure::param_lists(t);
    assert(a.to_set().subset_of(b.to_set())) by {
        assert forall|x: Seq<Seq<char>>| a.to_set().contains(x) implies b.to_set().contains(x) by {
            let i = choose|i: int| 0 <= i < a.len() && a[i] == x;
            assert(s.contains(s[i]));
            assert(s.to_multiset().count(s[i]) > 0);
            assert(t.to_multiset().count(s[i]) > 0);
            assert(t.contains(s[i]));
            let j = choose|j: int| 0 <= j < t.len() && t[j] == s[i];
            assert(b[j] == x);
            assert(b.contains(x));
        }
    }
    vstd::set_lib::lemma_len_subset(a.to_set(), b.to_set());
    let (m, n) = (s.to_multiset(), t.to_multiset());
    assert(n =~= m.add(n.sub(m)));
    assert(n.len() == m.len() + n.sub(m).len());
    assert(s.len() == s.to_multiset().len());
    assert(t.len() == t.to_multiset().len());
}

/// Dropping spans never creates an N+1 finding, and never inflates one, under the rule of distinct
/// parameters. A class whose spans do not fit the window as a whole is left out of account: what
/// remains of it may fit.
pub proof fn law_removing_spans_never_creates_or_inflates(
    trace_id: Seq<char>,
    kept: Seq<NormalizedEvent>,
    spans: Seq<NormalizedEvent>,
    threshold: nat,
    window_limit: u64,
    k: (EventType, Seq<char>),
)
    requires
        kept.to_multiset().subset_of(spans.to_multiset()),
        measure::window(measure::timestamps(n_plus_one_class(spans, k))) <= window_limit,
        n_plus_one_class(kept, k).len() > 0,
        class_finding(
            trace_id,
            kept,
            threshold,
            window_limit,
            SanitizerAwareMode::Never,
        )(k) is Some,
    ensures
        ({
            let part = class_finding(
                trace_id,
                kept,
                threshold,
                window_limit,
                SanitizerAwareMode::Never,
            )(k)->0;
            let full = class_finding(
                trace_id,
                spans,
                threshold,
                window_limit,
                SanitizerAwareMode::Never,
            )(k);
            &&& full is Some
            &&& full->0.finding_type == part.finding_type
            &&& full->0.pattern.template == part.pattern.template
            &&& part.pattern.occurrences <= full->0.pattern.occurrences
            &&& n_plus_one::n_plus_one_findings(
                trace_id,
                spans,
                threshold,
                window_limit,
                SanitizerAwareMode::Never,
            ).contains(full->0)
        }),
{
    let a = n_plus_one_class(kept, k);
    let b = n_plus_one_class(spans, k);
    permutation::lemma_filter_part(kept, spans, grouping::in_class(ByTemplate {  }, k));
    lemma_part_params(a, b);
    lemma_class_uniform(kept, k);
    lemma_class_uniform(spans, k);
    assert(a[0].event.event_type == b[0].event.event_type);
    let mode = SanitizerAwareMode::Never;
    let keys = grouping::classes(ByTemplate {  }, spans);
    let f = class_finding(trace_id, spans, threshold, window_limit, mode);
    lemma_by_class(trace_id, spans, threshold, window_limit, mode);
    permutation::lemma_filter_map_contains(keys, f, f(k)->0);
    let i = choose|i: int| 0 <= i < keys.len() && keys[i] == k;
    assert(f(keys[i]) == Some(f(k)->0));
}

/// Dropping spans never adds to the number of N+1 findings under the rule of distinct parameters,
/// where every class of the whole fits the window.
pub proof fn law_removing_spans_never_adds_findings(
    trace_id: Seq<char>,
    kept: Seq<NormalizedEvent>,
    spans: Seq<NormalizedEvent>,
    threshold: nat,
    window_limit: u64,
)
    requires
        kept.to_multiset().subset_of(spans.to_multiset()),
        forall|k: (EventType, Seq<char>)|
            measure::window(measure::timestamps(#[trigger] n_plus_one_class(spans, k)))
                <= window_limit,
    ensures
        n_plus_one::n_plus_one_findings(
            trace_id,
            kept,
            threshold,
            window_limit,
            SanitizerAwareMode::Never,
        ).len() <= n_plus_one::n_plus_one_findings(
            trace_id,
            spans,
            threshold,
            window_limit,
            SanitizerAwareMode::Never,
        ).len(),
{
    let g = ByTemplate {  };
    let mode = SanitizerAwareMode::Never;
    let s = grouping::classes(g, kept);
    let t = grouping::classes(g, spans);
    let f = class_finding(trace_id, kept, threshold, window_limit, mode);
    let h = class_finding(trace_id, spans, threshold, window_limit, mode);
    lemma_by_class(trace_id, kept, threshold, window_limit, mode);
    lemma_by_class(trace_id, spans, threshold, window_limit, mode);
    let p = |k: (EventType, Seq<char>)| f(k) is Some;
    let q = |k: (EventType, Seq<char>)| h(k) is Some;
    permutation::lemma_filter_map_count(s, f);
    permutation::lemma_filter_map_count(t, h);
    grouping::lemma_classes_distinct(g, kept);
    grouping::lemma_classes_distinct(g, spans);
    assert forall|k: (EventType, Seq<char>)| s.contains(k) && p(k) implies t.contains(k) && q(
        k,
    ) by {
        lemma_class_uniform(kept, k);
        assert(measure::window(measure::timestamps(n_plus_one_class(spans, k))) <= window_limit);
        law_removing_spans_never_creates_or_inflates(
            trace_id,
            kept,
            spans,
            threshold,
            window_limit,
            k,
        );
        lemma_class_uniform(spans, k);
        permutation::lemma_filter_part(kept, spans, grouping::in_class(g, k));
        lemma_part_params(n_plus_one_class(kept, k), n_plus_one_class(spans, k));
    }
    permutation::lemma_count_injected(s, t, p, q);
}

/// No operation is reported both as an N+1 and as redundant in the same trace, whatever the mode:
/// none whose N+1 finding has the same kind, template and grouping attribute.
pub proof fn law_n_plus_one_and_redundant_never_share_an_operation(
    trace_id: Seq<char>,
    spans: Seq<NormalizedEvent>,
    n_plus_one: Seq<FindingView>,
    f: FindingView,
    r: FindingView,
)
    requires
        n_plus_one.contains(f),
        redundant::redundant_findings(trace_id, spans, n_plus_one).contains(r),
        f.finding_type is NPlusOneSql && r.finding_type is RedundantSql || f.finding_type
            is NPlusOneHttp && r.finding_type is RedundantHttp,
        f.identity() == r.identity(),
    ensures
        f.pattern.template != r.pattern.template,
{
    lemma_redundant_unclaimed(trace_id, spans, n_plus_one, r);
    let group = choose|group: Seq<NormalizedEvent>|
        #[trigger] redundant::redundant_finding(trace_id, group, n_plus_one) == Some(r);
    let i = choose|i: int| 0 <= i < n_plus_one.len() && n_plus_one[i] == f;
    if f.pattern.template == r.pattern.template {
        assert(r.identity() == group[0].event.identity());
        assert(redundant::claims(n_plus_one[i], group[0]));
    }
}

proof fn lemma_redundant_unclaimed(
    trace_id: Seq<char>,
    spans: Seq<NormalizedEvent>,
    n_plus_one: Seq<FindingView>,
    r: FindingView,
)
    requires
        redundant::redundant_findings(trace_id, spans, n_plus_one).contains(r),
    ensures
        exists|group: Seq<NormalizedEvent>|
            (#[trigger] redundant::redundant_finding(trace_id, group, n_plus_one)) == Some(r)
                && grouping::groups(ExactDuplicates {  }, spans).contains(group),
{
    let groups = grouping::groups(ExactDuplicates {  }, spans);
    let f = |group: Seq<NormalizedEvent>|
        redundant::redundant_finding(trace_id, group, n_plus_one);
    permutation::lemma_filter_map_contains(groups, f, r);
    let i = choose|i: int| 0 <= i < groups.len() && f(#[trigger] groups[i]) == Some(r);
    assert(groups.contains(groups[i]));
    assert(redundant::redundant_finding(trace_id, groups[i], n_plus_one) == Some(r));
}

/// Where all spans of a trace carry the same grouping attribute, a template never appears both in
/// the N+1 and in the redundant findings for one kind of operation.
pub proof fn law_n_plus_one_and_redundant_never_share_a_template(
    trace_id: Seq<char>,
    spans: Seq<NormalizedEvent>,
    threshold: nat,
    window_limit: u64,
    mode: SanitizerAwareMode,
    f: FindingView,
    r: FindingView,
)
    requires
        forall|i: int, j: int|
            #![trigger spans[i], spans[j]]
            0 <= i < spans.len() && 0 <= j < spans.len() ==> spans[i].event.identity()
                == spans[j].event.identity(),
        n_plus_one::n_plus_one_findings(
            trace_id,
            spans,
            threshold,
            window_limit,
            mode,
        ).contains(f),
        redundant::redundant_findings(
            trace_id,
            spans,
            n_plus_one::n_plus_one_findings(trace_id, spans, threshold, window_limit, mode),
        ).contains(r),
        f.finding_type is NPlusOneSql && r.finding_type is RedundantSql || f.finding_type
            is NPlusOneHttp && r.finding_type is RedundantHttp,
    ensures
        f.pattern.template != r.pattern.template,
{
    let all = n_plus_one::n_plus_one_findings(trace_id, spans, threshold, window_limit, mode);
    law_n_plus_one_findings_stem_from_spans(trace_id, spans, threshold, window_limit, mode, f);
    let i = choose|i: int|
        0 <= i < spans.len() && (#[trigger] spans[i]).template@ == f.pattern.template
            && FindingType::n_plus_one(spans[i].event.event_type) == f.finding_type
            && spans[i].event.identity() == f.identity();
    lemma_redundant_unclaimed(trace_id, spans, all, r);
    let group = choose|group: Seq<NormalizedEvent>|
        (#[trigger] redundant::redundant_finding(trace_id, group, all)) == Some(r)
            && grouping::groups(ExactDuplicates {  }, spans).contains(group);
    let groups = grouping::groups(ExactDuplicates {  }, spans);
    let m = choose|m: int| 0 <= m < groups.len() && groups[m] == group;
    let key = grouping::classes(ExactDuplicates {  }, spans)[m];
    assert(group == grouping::class_members(ExactDuplicates {  }, spans, key));
    assert(group.len() > 0);
    assert(group.contains(group[0]));
    permutation::lemma_filter_contains(
        spans,
        grouping::in_class(ExactDuplicates {  }, key),
        group[0],
    );
    let j = choose|j: int| 0 <= j < spans.len() && spans[j] == group[0];
    assert(spans[i].event.identity() == spans[j].event.identity());
    law_n_plus_one_and_redundant_never_share_an_operation(trace_id, spans, all, f, r);
}

/// An N+1 finding is about operations of the workload: one of its spans has the finding's kind,
/// template and grouping attribute, and no more occurrences are counted than there are spans. It is
/// classified by its distinct parameters or by the heuristic, whatever the mode.
pub proof fn law_n_plus_one_findings_stem_from_spans(
    trace_id: Seq<char>,
    spans: Seq<NormalizedEvent>,
    threshold: nat,
    window_limit: u64,
    mode: SanitizerAwareMode,
    f: FindingView,
)
    requires
        n_plus_one::n_plus_one_findings(
            trace_id,
            spans,
            threshold,
            window_limit,
            mode,
        ).contains(f),
    ensures
        exists|i: int|
            0 <= i < spans.len() && (#[trigger] spans[i]).template@ == f.pattern.template
                && FindingType::n_plus_one(spans[i].event.event_type) == f.finding_type
                && spans[i].event.identity() == f.identity(),
        threshold <= f.pattern.occurrences <= spans.len(),
        f.pattern.window_ms <= window_limit,
        f.classification_method is None || f.classification_method == Some(
            ClassificationMethod::SanitizerHeuristic,
        ),
        f.trace_id == trace_id,
{
    let keys = grouping::classes(ByTemplate {  }, spans);
    let h = class_finding(trace_id, spans, threshold, window_limit, mode);
    lemma_by_class(trace_id, spans, threshold, window_limit, mode);
    permutation::lemma_filter_map_contains(keys, h, f);
    let m = choose|m: int| 0 <= m < keys.len() && h(#[trigger] keys[m]) == Some(f);
    let group = n_plus_one_class(spans, keys[m]);
    assert(keys.contains(keys[m]));
    lemma_class_uniform(spans, keys[m]);
    assert(group.contains(group[0]));
    permutation::lemma_filter_contains(
        spans,
        grouping::in_class(ByTemplate {  }, keys[m]),
        group[0],
    );
    let i = choose|i: int| 0 <= i < spans.len() && spans[i] == group[0];
    assert(spans[i].template@ == f.pattern.template);
}

/// No class of operations is split into several N+1 findings: two findings differ in kind or
/// template.
pub proof fn law_one_finding_per_operation(
    trace_id: Seq<char>,
    spans: Seq<NormalizedEvent>,
    threshold: nat,
    window_limit: u64,
    mode: SanitizerAwareMode,
)
    ensures
        permutation::pairwise(
            n_plus_one::n_plus_one_findings(trace_id, spans, threshold, window_limit, mode),
            |a: FindingView, b: FindingView|
                a.finding_type != b.finding_type || a.pattern.template != b.pattern.template,
        ),
{
    let keys = grouping::classes(ByTemplate {  }, spans);
    let f = class_finding(trace_id, spans, threshold, window_limit, mode);
    lemma_by_class(trace_id, spans, threshold, window_limit, mode);
    grouping::lemma_classes_distinct(ByTemplate {  }, spans);
    assert forall|k: (EventType, Seq<char>)| keys.contains(k) && f(k) is Some implies (
    f(k)->0.finding_type == FindingType::n_plus_one(k.0)) && f(k)->0.pattern.template == k.1 by {
        lemma_class_uniform(spans, k);
    }
    lemma_images_differ(keys, f, |t: EventType| FindingType::n_plus_one(t));
}

/// Whether the 99th percentile of all spans of an operation exceeds the threshold, and there are
/// enough of them, from two traces at least.
pub open spec fn is_slow_across(
    traces: &[Trace],
    threshold_ms: u64,
    min_occurrences: nat,
    k: (EventType, Seq<char>),
) -> bool {
    let all = slow::positions_of(traces, k);
    &&& all.len() >= min_occurrences
    &&& measure::distinct(slow::trace_ids(traces@, all)) >= 2
    &&& slow::percentile(traces@, all, 99) > slow::threshold_us(threshold_ms)
}

/// Whether a finding is the one on slow spans of an operation.
pub open spec fn is_slow_finding_on(f: FindingView, k: (EventType, Seq<char>)) -> bool {
    f.finding_type == FindingType::slow(k.0) && f.pattern.template == k.1
}

spec fn slow_class_finding(
    traces: &[Trace],
    threshold_ms: u64,
    min_occurrences: nat,
) -> spec_fn((EventType, Seq<char>)) -> Option<FindingView> {
    |k: (EventType, Seq<char>)|
        slow::cross_trace_finding(
            traces@,
            slow::positions_of(traces, k),
            min_occurrences,
            slow::threshold_us(threshold_ms),
        )
}

proof fn lemma_slow_by_class(traces: &[Trace], threshold_ms: u64, min_occurrences: nat)
    ensures
        ({
            let g = AcrossTraces { traces };
            let keys = grouping::classes(g, slow::all_positions(traces@, traces@.len()));
            let f = slow_class_finding(traces, threshold_ms, min_occurrences);
            &&& slow::cross_trace_findings(traces, threshold_ms, min_occurrences)
                == keys.filter_map(f)
            &&& keys.no_duplicates()
            &&& forall|k: (EventType, Seq<char>)|
                keys.contains(k) <==> (#[trigger] slow::positions_of(traces, k)).len() > 0
            &&& forall|k: (EventType, Seq<char>)|
                keys.contains(k) && f(k) is Some ==> is_slow_finding_on((#[trigger] f(k))->0, k)
        }),
{
    let g = AcrossTraces { traces };
    let spans = slow::all_positions(traces@, traces@.len());
    let keys = grouping::classes(g, spans);
    let limit = slow::threshold_us(threshold_ms);
    let members = |k: (EventType, Seq<char>)| grouping::class_members(g, spans, k);
    let h = |group: Seq<SpanPosition>|
        slow::cross_trace_finding(traces@, group, min_occurrences, limit);
    let f = slow_class_finding(traces, threshold_ms, min_occurrences);
    permutation::lemma_filter_map_of_map(keys, members, h);
    permutation::lemma_filter_map_same(keys, |k: (EventType, Seq<char>)| h(members(k)), f);
    grouping::lemma_classes_distinct(g, spans);
    assert forall|k: (EventType, Seq<char>)|
        keys.contains(k) <==> (#[trigger] slow::positions_of(traces, k)).len() > 0 by {
        grouping::lemma_class_members(g, spans, k);
    }
    assert forall|k: (EventType, Seq<char>)| keys.contains(k) && f(k) is Some implies (
    is_slow_finding_on((#[trigger] f(k))->0, k)) by {
        grouping::lemma_class_members(g, spans, k);
        let all = slow::positions_of(traces, k);
        assert(g.key(all[0]) == k);
    }
}

/// The percentiles of the cross-trace detection are those of all spans of an operation, fast ones
/// among them: the operation is reported if and only if the 99th percentile exceeds the threshold
/// and there are enough spans, from two traces at least. The finding counts all of them.
pub proof fn law_cross_trace_findings_go_by_all_spans(
    traces: &[Trace],
    threshold_ms: u64,
    min_occurrences: nat,
    k: (EventType, Seq<char>),
)
    ensures
        is_slow_across(traces, threshold_ms, min_occurrences, k) <==> exists|f: FindingView| #[trigger]
            is_slow_finding_on(f, k) && slow::cross_trace_findings(
                traces,
                threshold_ms,
                min_occurrences,
            ).contains(f),
        forall|f: FindingView| #[trigger]
            is_slow_finding_on(f, k) && slow::cross_trace_findings(
                traces,
                threshold_ms,
                min_occurrences,
            ).contains(f) ==> f.pattern.occurrences == slow::positions_of(traces, k).len(),
{
    let g = AcrossTraces { traces };
    let keys = grouping::classes(g, slow::all_positions(traces@, traces@.len()));
    let h = slow_class_finding(traces, threshold_ms, min_occurrences);
    let found = slow::cross_trace_findings(traces, threshold_ms, min_occurrences);
    lemma_slow_by_class(traces, threshold_ms, min_occurrences);
    let all = slow::positions_of(traces, k);
    measure::lemma_distinct_bound(slow::trace_ids(traces@, all));
    if is_slow_across(traces, threshold_ms, min_occurrences, k) {
        assert(keys.contains(k));
        let f = h(k)->0;
        let m = choose|m: int| 0 <= m < keys.len() && keys[m] == k;
        assert(h(keys[m]) == Some(f));
        permutation::lemma_filter_map_contains(keys, h, f);
        assert(is_slow_finding_on(f, k) && found.contains(f));
    }
    assert forall|f: FindingView| #[trigger] is_slow_finding_on(f, k) && found.contains(f) implies (
    h(k) == Some(f)) by {
        permutation::lemma_filter_map_contains(keys, h, f);
        let m = choose|m: int| 0 <= m < keys.len() && h(#[trigger] keys[m]) == Some(f);
        assert(keys.contains(keys[m]));
        assert(is_slow_finding_on(h(keys[m])->0, keys[m]));
        assert(keys[m] == k);
    }
}

/// No operation is reported twice across traces: two findings differ in kind or template.
pub proof fn law_one_cross_trace_finding_per_operation(
    traces: &[Trace],
    threshold_ms: u64,
    min_occurrences: nat,
)
    ensures
        permutation::pairwise(
            slow::cross_trace_findings(traces, threshold_ms, min_occurrences),
            |a: FindingView, b: FindingView|
                a.finding_type != b.finding_type || a.pattern.template != b.pattern.template,
        ),
{
    let keys = grouping::classes(
        AcrossTraces { traces },
        slow::all_positions(traces@, traces@.len()),
    );
    let f = slow_class_finding(traces, threshold_ms, min_occurrences);
    lemma_slow_by_class(traces, threshold_ms, min_occurrences);
    assert forall|k: (EventType, Seq<char>)| keys.contains(k) && f(k) is Some implies (
    f(k)->0.finding_type == FindingType::slow(k.0)) && f(k)->0.pattern.template == k.1 by {
        assert(is_slow_finding_on(f(k)->0, k));
    }
    lemma_images_differ(keys, f, |t: EventType| FindingType::slow(t));
}

proof fn lemma_images_differ(
    keys: Seq<(EventType, Seq<char>)>,
    f: spec_fn((EventType, Seq<char>)) -> Option<FindingView>,
    kind: spec_fn(EventType) -> FindingType,
)
    requires
        keys.no_duplicates(),
        forall|s: EventType, t: EventType| #[trigger] kind(s) == #[trigger] kind(t) ==> s == t,
        forall|k: (EventType, Seq<char>)|
            keys.contains(k) && f(k) is Some ==> (#[trigger] f(k))->0.finding_type == kind(k.0)
                && f(k)->0.pattern.template == k.1,
    ensures
        permutation::pairwise(
            keys.filter_map(f),
            |a: FindingView, b: FindingView|
                a.finding_type != b.finding_type || a.pattern.template != b.pattern.template,
        ),
    decreases keys.len(),
{
    let apart = |a: FindingView, b: FindingView|
        a.finding_type != b.finding_type || a.pattern.template != b.pattern.template;
    if keys.len() > 0 {
        let rest = keys.drop_last();
        let last = keys.last();
        assert forall|k: (EventType, Seq<char>)| rest.contains(k) implies keys.contains(k) by {
            let i = choose|i: int| 0 <= i < rest.len() && rest[i] == k;
            assert(keys[i] == k);
        }
        lemma_images_differ(rest, f, kind);
        let found = rest.filter_map(f);
        assert(keys.contains(last)) by {
            assert(keys[keys.len() - 1] == last);
        }
        if let Some(x) = f(last) {
            let all = keys.filter_map(f);
            assert(all == found + seq![x]);
            assert forall|i: int| 0 <= i < found.len() implies apart(
                #[trigger] found[i],
                x,
            ) && apart(x, found[i]) by {
                assert(found.contains(found[i]));
                permutation::lemma_filter_map_contains(rest, f, found[i]);
                let m = choose|m: int|
                    0 <= m < rest.len() && f(#[trigger] rest[m]) == Some(found[i]);
                assert(rest[m] == keys[m]);
                assert(rest.contains(rest[m]));
                assert(keys[m] != keys[keys.len() - 1]);
            }
            assert forall|i: int, j: int|
                #![trigger all[i], all[j]]
                0 <= i < all.len() && 0 <= j < all.len() && i != j implies apart(
                all[i],
                all[j],
            ) by {
                if i < found.len() {
                    assert(all[i] == found[i]);
                }
                if j < found.len() {
                    assert(all[j] == found[j]);
                }
            }
        }
    }
}

/// Sorted findings are in order of type, severity, trace, endpoint and template.
pub proof fn law_sorted_findings_go_by_their_fields(findings: Seq<Finding>, i: int, j: int)
    requires
        0 <= i < j < findings.len(),
    ensures
        ({
            let (a, b) = (order::ranked(findings)[i], order::ranked(findings)[j]);
            ||| a.finding_type.position() < b.finding_type.position()
            ||| a.finding_type == b.finding_type && {
                ||| a.severity.position() < b.severity.position()
                ||| a.severity == b.severity && {
                    ||| text::text_lt(a.trace_id@, b.trace_id@)
                    ||| a.trace_id@ == b.trace_id@ && {
                        ||| text::text_lt(a.source_endpoint@, b.source_endpoint@)
                        ||| a.source_endpoint@ == b.source_endpoint@ && {
                            ||| text::text_lt(a.pattern.template@, b.pattern.template@)
                            ||| a.pattern.template@ == b.pattern.template@
                        }
                    }
                }
            }
        }),
{
    order::lemma_ranked(findings);
    let (a, b) = (order::ranked(findings)[i], order::ranked(findings)[j]);
    assert(order::Ranked::rank_le(&a, &b));
    text::lemma_text_lt_triple(
        a.pattern.template@,
        b.pattern.template@,
        b.pattern.template@,
    );
}

/// Stamping a confidence changes nothing else.
pub proof fn law_confidence_is_all_that_is_stamped(f: FindingView, confidence: Confidence)
    ensures
        detect::with_confidence(f, confidence) == (FindingView {
            finding_type: f.finding_type,
            severity: f.severity,
            trace_id: f.trace_id,
            service: f.service,
            grouping: f.grouping,
            source_endpoint: f.source_endpoint,
            pattern: f.pattern,
            suggestion: f.suggestion,
            first_timestamp: f.first_timestamp,
            last_timestamp: f.last_timestamp,
            green_impact: f.green_impact,
            confidence,
            classification_method: f.classification_method,
            code_location: f.code_location,
            instrumentation_scopes: f.instrumentation_scopes,
            suggested_fix: f.suggested_fix,
            signature: f.signature,
        }),
{
}

/// Each setting of the configuration reaches its detector.
pub proof fn law_settings_reach_their_detectors(config: Config)
    ensures
        ({
            let c = DetectConfig::configured(config);
            &&& c.n_plus_one_threshold == config.n_plus_one_threshold
            &&& c.window_ms == config.window_duration_ms
            &&& c.slow_threshold_ms == config.slow_query_threshold_ms
            &&& c.slow_min_occurrences == config.slow_query_min_occurrences
            &&& c.max_fanout == config.max_fanout
            &&& c.chatty_service_min_calls == config.chatty_service_min_calls
            &&& c.pool_saturation_concurrent_threshold
                == config.pool_saturation_concurrent_threshold
            &&& c.serialized_min_sequential == config.serialized_min_sequential
            &&& c.sanitizer_aware_classification == config.sanitizer_aware_classification
        }),
{
}

proof fn lemma_either<A>(s: Seq<A>, t: Seq<A>, x: A)
    ensures
        (s + t).contains(x) <==> s.contains(x) || t.contains(x),
{
    if s.contains(x) {
        let i = choose|i: int| 0 <= i < s.len() && s[i] == x;
        assert((s + t)[i] == x);
    }
    if t.contains(x) {
        let i = choose|i: int| 0 <= i < t.len() && t[i] == x;
        assert((s + t)[s.len() + i] == x);
    }
}

/// What is found in a trace is what one of the detectors finds there, under its own settings. The
/// detector of redundant operations is told the N+1 findings. Those come first, and the findings on
/// serialized calls last.
pub proof fn law_every_detector_has_its_say(trace: Trace, config: DetectConfig, f: FindingView)
    ensures
        ({
            let id = trace.trace_id@;
            let n_plus_one = n_plus_one::n_plus_one_findings(
                id,
                trace.spans@,
                config.n_plus_one_threshold as nat,
                config.window_ms,
                config.sanitizer_aware_classification,
            );
            detect::trace_findings(trace, config).contains(f) <==> {
                ||| n_plus_one.contains(f)
                ||| redundant::redundant_findings(id, trace.spans@, n_plus_one).contains(f)
                ||| slow::slow_findings(
                    id,
                    trace.spans@,
                    config.slow_threshold_ms,
                    config.slow_min_occurrences as nat,
                ).contains(f)
                ||| fanout::fanout_findings(id, &trace.spans, config.max_fanout as nat).contains(f)
                ||| chatty::chatty_findings(
                    id,
                    trace.spans@,
                    config.chatty_service_min_calls as nat,
                ).contains(f)
                ||| pool_saturation::pool_findings(
                    id,
                    trace.spans@,
                    config.pool_saturation_concurrent_threshold as nat,
                ).contains(f)
                ||| serialized::serialized_findings(
                    id,
                    &trace.spans,
                    config.serialized_min_sequential as nat,
                ).contains(f)
            }
        }),
        ({
            let found = detect::trace_findings(trace, config);
            let first = n_plus_one::n_plus_one_findings(
                trace.trace_id@,
                trace.spans@,
                config.n_plus_one_threshold as nat,
                config.window_ms,
                config.sanitizer_aware_classification,
            );
            let last = serialized::serialized_findings(
                trace.trace_id@,
                &trace.spans,
                config.serialized_min_sequential as nat,
            );
            &&& found.len() >= first.len() + last.len()
            &&& found.take(first.len() as int) == first
            &&& found.skip(found.len() - last.len()) == last
        }),
{
    reveal(detect::trace_findings);
    let id = trace.trace_id@;
    let a = n_plus_one::n_plus_one_findings(
        id,
        trace.spans@,
        config.n_plus_one_threshold as nat,
        config.window_ms,
        config.sanitizer_aware_classification,
    );
    let b = redundant::redundant_findings(id, trace.spans@, a);
    let c = slow::slow_findings(
        id,
        trace.spans@,
        config.slow_threshold_ms,
        config.slow_min_occurrences as nat,
    );
    let d = fanout::fanout_findings(id, &trace.spans, config.max_fanout as nat);
    let e = chatty::chatty_findings(id, trace.spans@, config.chatty_service_min_calls as nat);
    let p = pool_saturation::pool_findings(
        id,
        trace.spans@,
        config.pool_saturation_concurrent_threshold as nat,
    );
    let s = serialized::serialized_findings(
        id,
        &trace.spans,
        config.serialized_min_sequential as nat,
    );
    lemma_either(a, b, f);
    lemma_either(a + b, c, f);
    lemma_either(a + b + c, d, f);
    lemma_either(a + b + c + d, e, f);
    lemma_either(a + b + c + d + e, p, f);
    lemma_either(a + b + c + d + e + p, s, f);
    let found = detect::trace_findings(trace, config);
    assert(found.take(a.len() as int) =~= a);
    assert(found.skip(found.len() - s.len()) =~= s);
}

/// What is found in traces is what is found in one of them; each finding is given its fix.
pub proof fn law_findings_stem_from_traces(traces: Seq<Trace>, config: DetectConfig, f: FindingView)
    ensures
        detect::detected(traces, config).contains(f) <==> exists|i: int, g: FindingView|
            0 <= i < traces.len() && #[trigger] detect::trace_findings(
                traces[i],
                config,
            ).contains(g) && suggestions::enriched(g) == f,
{
    let plain = detect::plain_findings(traces, config);
    if detect::detected(traces, config).contains(f) {
        let k = choose|k: int|
            0 <= k < detect::detected(traces, config).len() && detect::detected(traces, config)[k]
                == f;
        assert(plain.contains(plain[k]));
        lemma_plain_of(traces, config, plain[k]);
        let i = choose|i: int|
            0 <= i < traces.len() && #[trigger] detect::trace_findings(
                traces[i],
                config,
            ).contains(plain[k]);
        assert(suggestions::enriched(plain[k]) == f);
    }
    if exists|i: int, g: FindingView|
        0 <= i < traces.len() && #[trigger] detect::trace_findings(traces[i], config).contains(g)
            && suggestions::enriched(g) == f {
        let (i, g) = choose|i: int, g: FindingView|
            0 <= i < traces.len() && #[trigger] detect::trace_findings(
                traces[i],
                config,
            ).contains(g) && suggestions::enriched(g) == f;
        lemma_plain_of(traces, config, g);
        let k = choose|k: int| 0 <= k < plain.len() && plain[k] == g;
        assert(detect::detected(traces, config)[k] == f);
    }
}

proof fn lemma_plain_of(traces: Seq<Trace>, config: DetectConfig, g: FindingView)
    ensures
        detect::plain_findings(traces, config).contains(g) <==> exists|i: int|
            0 <= i < traces.len() && #[trigger] detect::trace_findings(
                traces[i],
                config,
            ).contains(g),
    decreases traces.len(),
{
    if traces.len() > 0 {
        let rest = traces.drop_last();
        lemma_plain_of(rest, config, g);
        lemma_either(
            detect::plain_findings(rest, config),
            detect::trace_findings(traces.last(), config),
            g,
        );
        if detect::plain_findings(rest, config).contains(g) {
            let i = choose|i: int|
                0 <= i < rest.len() && #[trigger] detect::trace_findings(
                    rest[i],
                    config,
                ).contains(g);
            assert(rest[i] == traces[i]);
            assert(detect::trace_findings(traces[i], config).contains(g));
        }
        if detect::trace_findings(traces.last(), config).contains(g) {
            assert(detect::trace_findings(traces[traces.len() - 1], config).contains(g));
        }
        if exists|i: int|
            0 <= i < traces.len() && #[trigger] detect::trace_findings(
                traces[i],
                config,
            ).contains(g) {
            let i = choose|i: int|
                0 <= i < traces.len() && #[trigger] detect::trace_findings(
                    traces[i],
                    config,
                ).contains(g);
            if i < rest.len() {
                assert(rest[i] == traces[i]);
                assert(detect::trace_findings(rest[i], config).contains(g));
            }
        }
    }
}

/// Full detection adds the findings across traces, under the settings for slow operations, where
/// there are two traces or more.
pub proof fn law_full_detection_looks_across_traces(
    traces: &[Trace],
    config: DetectConfig,
    f: FindingView,
)
    ensures
        detect::fully_detected(traces, config).contains(f) <==> detect::detected(
            traces@,
            config,
        ).contains(f) || (traces@.len() >= 2 && slow::cross_trace_findings(
            traces,
            config.slow_threshold_ms,
            config.slow_min_occurrences as nat,
        ).contains(f)),
{
    if traces@.len() >= 2 {
        lemma_either(
            detect::detected(traces@, config),
            slow::cross_trace_findings(
                traces,
                config.slow_threshold_ms,
                config.slow_min_occurrences as nat,
            ),
            f,
        );
    } else {
        lemma_either(detect::detected(traces@, config), Seq::empty(), f);
    }
}

} // verus!

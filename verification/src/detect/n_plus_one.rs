//! N+1 detection for SQL queries and HTTP calls.
//!
//! Detects patterns where the same normalized template is called many times with different
//! parameters within a single trace, inside a configurable time window.

use crate::arith;
use crate::detect::finding;
use crate::detect::finding::{
    ClassificationMethod, Finding, FindingType, FindingView, PerTraceFindingArgs, Severity,
};
use crate::detect::grouping;
use crate::detect::measure;
use crate::detect::measure::ByTemplate;
use crate::detect::sanitizer_aware;
use crate::detect::sanitizer_aware::{SanitizerAwareMode, SanitizerVerdict};
use crate::event;
use crate::event::{EventType, NormalizedEvent, Trace};
use crate::order;
use crate::order::Ranked;
use crate::permutation;
use crate::text;
use crate::time;
use vstd::prelude::*;
use vstd::string::*;

verus! {

/// Occurrence count at which an N+1 finding becomes critical.
pub const CRITICAL_OCCURRENCE_THRESHOLD: usize = 10;

/// Fixed N+1 threshold for the avoidable energy that is disclosed periodically. It is not
/// configurable on purpose: the most sensitive threshold gives an upper bound.
pub const DISCLOSURE_N_PLUS_ONE_THRESHOLD: u32 = 2;

/// The start and end of a span, in microseconds since the Unix epoch.
#[derive(Debug, Clone, Copy, PartialEq, Eq, Structural)]
pub struct SpanBounds {
    pub start_us: u64,
    pub end_us: u64,
}

impl Ranked for SpanBounds {
    open spec fn rank_le(&self, other: &Self) -> bool {
        self.start_us < other.start_us || (self.start_us == other.start_us && self.end_us
            <= other.end_us)
    }

    proof fn rank_total(a: Self, b: Self) {
    }

    proof fn rank_transitive(a: Self, b: Self, c: Self) {
    }

    fn may_precede(&self, other: &Self) -> (r: bool) {
        self.start_us < other.start_us || (self.start_us == other.start_us && self.end_us
            <= other.end_us)
    }
}

/// The bounds of a span whose timestamp can be read.
pub open spec fn span_bounds(s: NormalizedEvent) -> Option<SpanBounds> {
    match time::timestamp_ms(s.event.timestamp@) {
        Some(ms) => {
            let start_us = arith::capped(ms * 1000);
            Some(SpanBounds { start_us, end_us: arith::capped(start_us + s.event.duration_us) })
        },
        None => None,
    }
}

/// The bounds of the spans of a group whose timestamp can be read.
pub open spec fn group_bounds(group: Seq<NormalizedEvent>) -> Seq<SpanBounds> {
    group.filter_map(|s: NormalizedEvent| span_bounds(s))
}

/// Whether one of two spans ends before, or as, the other starts.
pub open spec fn disjoint(a: SpanBounds, b: SpanBounds) -> bool {
    a.end_us <= b.start_us || b.end_us <= a.start_us
}

/// Whether any two of the spans are disjoint.
pub open spec fn all_disjoint(bounds: Seq<SpanBounds>) -> bool {
    forall|i: int, j: int|
        #![trigger bounds[i], bounds[j]]
        0 <= i < j < bounds.len() ==> disjoint(bounds[i], bounds[j])
}

/// The identifier of a span's parent.
pub open spec fn parent_of(s: NormalizedEvent) -> Option<Seq<char>> {
    event::opt_view(s.event.parent_span_id)
}

/// Whether three spans or more run one after the other under one parent. A span whose timestamp
/// cannot be read is left out of account, as long as three remain.
pub open spec fn siblings_in_sequence(group: Seq<NormalizedEvent>) -> bool {
    &&& group.len() >= 3
    &&& parent_of(group[0]) is Some
    &&& parent_of(group[0]) != Some(Seq::<char>::empty())
    &&& forall|i: int| 0 <= i < group.len() ==> parent_of(#[trigger] group[i]) == parent_of(
        group[0],
    )
    &&& group_bounds(group).len() >= 3
    &&& all_disjoint(group_bounds(group))
}

/// Whether the spans of a sanitized SQL group look like an N+1: under `Strict` a primary signal
/// (ORM scope, sequential siblings or many occurrences) and a corroborating one (spread of the
/// durations or many occurrences), else the ORM scope or the spread of the durations.
pub open spec fn sql_group_likely(
    group: Seq<NormalizedEvent>,
    mode: SanitizerAwareMode,
    high_occurrence: bool,
) -> bool {
    let orm = sanitizer_aware::any_orm_scope(sanitizer_aware::group_scopes(group));
    let spread = sanitizer_aware::durations_spread(group);
    if mode is Strict {
        (orm || siblings_in_sequence(group) || high_occurrence) && (spread || high_occurrence)
    } else {
        orm || spread
    }
}

/// Whether the calls of an HTTP group look like an N+1: under `Strict` a primary signal (a
/// placeholder in the route, sequential siblings or many occurrences) and a corroborating one, else
/// the spread of the durations.
pub open spec fn http_group_likely(
    group: Seq<NormalizedEvent>,
    mode: SanitizerAwareMode,
    high_occurrence: bool,
) -> bool {
    let spread = sanitizer_aware::durations_spread(group);
    if mode is Strict {
        (group[0].template@.contains('{') || siblings_in_sequence(group) || high_occurrence) && (
        spread || high_occurrence)
    } else {
        spread
    }
}

/// Whether a group of operations is an N+1, with the number of distinct parameter lists to report
/// and the method by which it was classified.
pub open spec fn classification(
    group: Seq<NormalizedEvent>,
    threshold: nat,
    mode: SanitizerAwareMode,
) -> Option<(nat, Option<ClassificationMethod>)> {
    let params = measure::distinct_params(group);
    let high_occurrence = group.len() >= 3 * threshold;
    if group.len() < threshold {
        None
    } else if params >= threshold {
        Some((params, None))
    } else if mode is Never {
        None
    } else {
        match group[0].event.event_type {
            EventType::Sql => if sanitizer_aware::all_sanitized(group) && (mode is Always
                || sql_group_likely(group, mode, high_occurrence)) {
                Some((1, Some(ClassificationMethod::SanitizerHeuristic)))
            } else {
                None
            },
            EventType::HttpOut => if mode is Always || http_group_likely(
                group,
                mode,
                high_occurrence,
            ) {
                Some((params, Some(ClassificationMethod::SanitizerHeuristic)))
            } else {
                None
            },
        }
    }
}

/// The severity of so many occurrences.
pub open spec fn occurrence_severity(occurrences: nat) -> Severity {
    if occurrences >= CRITICAL_OCCURRENCE_THRESHOLD {
        Severity::Critical
    } else {
        Severity::Warning
    }
}

/// The remediation hint for so many operations of a kind.
pub open spec fn batching_hint(event_type: EventType, occurrences: nat) -> Seq<char> {
    match event_type {
        EventType::Sql => "Use WHERE ... IN (?) to batch "@ + text::decimal(occurrences)
            + " queries into one"@,
        EventType::HttpOut => "Use batch endpoint with ?ids=... to batch "@ + text::decimal(
            occurrences,
        ) + " calls into one"@,
    }
}

/// The finding on a group of operations, if it is an N+1 within the window.
pub open spec fn n_plus_one_finding(
    trace_id: Seq<char>,
    group: Seq<NormalizedEvent>,
    threshold: nat,
    window_limit: u64,
    mode: SanitizerAwareMode,
) -> Option<FindingView> {
    match classification(group, threshold, mode) {
        Some((params, method)) => if measure::window(measure::timestamps(group)) > window_limit {
            None
        } else {
            Some(
                finding::group_finding(
                    FindingType::n_plus_one(group[0].event.event_type),
                    occurrence_severity(group.len()),
                    trace_id,
                    group,
                    params,
                    batching_hint(group[0].event.event_type, group.len()),
                    method,
                ),
            )
        },
        None => None,
    }
}

/// The N+1 findings of a trace: one at most for each kind of operation and template, in order of
/// first occurrence.
pub open spec fn n_plus_one_findings(
    trace_id: Seq<char>,
    spans: Seq<NormalizedEvent>,
    threshold: nat,
    window_limit: u64,
    mode: SanitizerAwareMode,
) -> Seq<FindingView> {
    grouping::groups(ByTemplate {  }, spans).filter_map(
        |group: Seq<NormalizedEvent>|
            n_plus_one_finding(trace_id, group, threshold, window_limit, mode),
    )
}

/// Milliseconds since the Unix epoch of an ISO 8601 UTC timestamp.
pub fn parse_timestamp_ms(ts: &str) -> (r: Option<u64>)
    ensures
        r == time::timestamp_ms(ts@),
{
    time::parse_iso8601_utc_to_ms(ts)
}

/// The time window in milliseconds between the earliest and the latest timestamp.
pub fn compute_window_ms(timestamps: &[&str]) -> (r: u64)
    ensures
        r == measure::window(timestamps@.map_values(|t: &str| t@)),
{
    measure::compute_window_and_bounds(timestamps).0
}

/// The bounds of a span whose timestamp can be read.
pub(crate) fn bounds_of(s: &NormalizedEvent) -> (r: Option<SpanBounds>)
    ensures
        r == span_bounds(*s),
{
    match parse_timestamp_ms(s.event.timestamp.as_str()) {
        Some(ms) => {
            let start_us = arith::capped_product(ms, 1000);
            let end_us = arith::capped_sum(start_us, s.event.duration_us);
            Some(SpanBounds { start_us, end_us })
        },
        None => None,
    }
}

proof fn lemma_all_disjoint_pairwise(s: Seq<SpanBounds>)
    ensures
        all_disjoint(s) <==> permutation::pairwise(s, |a: SpanBounds, b: SpanBounds| disjoint(a, b)),
{
    let r = |a: SpanBounds, b: SpanBounds| disjoint(a, b);
    if all_disjoint(s) {
        assert forall|i: int, j: int|
            #![trigger s[i], s[j]]
            0 <= i < s.len() && 0 <= j < s.len() && i != j implies r(s[i], s[j]) by {
            if i < j {
                assert(disjoint(s[i], s[j]));
            } else {
                assert(disjoint(s[j], s[i]));
            }
        }
    }
    if permutation::pairwise(s, r) {
        assert forall|i: int, j: int|
            #![trigger s[i], s[j]]
            0 <= i < j < s.len() implies disjoint(s[i], s[j]) by {
            assert(r(s[i], s[j]));
        }
    }
}

/// Whether spans are pairwise disjoint does not depend on their order.
pub proof fn lemma_all_disjoint_permutation(s: Seq<SpanBounds>, t: Seq<SpanBounds>)
    requires
        s.to_multiset() == t.to_multiset(),
    ensures
        all_disjoint(s) == all_disjoint(t),
{
    let r = |a: SpanBounds, b: SpanBounds| disjoint(a, b);
    lemma_all_disjoint_pairwise(s);
    lemma_all_disjoint_pairwise(t);
    if permutation::pairwise(s, r) {
        permutation::lemma_pairwise_permutation(s, t, r);
    }
    if permutation::pairwise(t, r) {
        permutation::lemma_pairwise_permutation(t, s, r);
    }
}

proof fn lemma_chain_disjoint(s: Seq<SpanBounds>)
    requires
        forall|k: int| 0 < k < s.len() ==> s[k - 1].end_us <= (#[trigger] s[k]).start_us,
        forall|k: int| 0 <= k < s.len() ==> (#[trigger] s[k]).start_us <= s[k].end_us,
    ensures
        all_disjoint(s),
{
    assert forall|i: int, j: int|
        #![trigger s[i], s[j]]
        0 <= i < j < s.len() implies disjoint(s[i], s[j]) by {
        lemma_chain_step(s, i, j);
    }
}

proof fn lemma_chain_step(s: Seq<SpanBounds>, i: int, j: int)
    requires
        0 <= i < j < s.len(),
        forall|k: int| 0 < k < s.len() ==> s[k - 1].end_us <= (#[trigger] s[k]).start_us,
        forall|k: int| 0 <= k < s.len() ==> (#[trigger] s[k]).start_us <= s[k].end_us,
    ensures
        s[i].end_us <= s[j].start_us,
    decreases j - i,
{
    assert(s[j - 1].end_us <= s[j].start_us);
    if i < j - 1 {
        lemma_chain_step(s, i, j - 1);
        assert(s[j - 1].start_us <= s[j - 1].end_us);
    }
}

proof fn lemma_bounds_ordered(group: Seq<NormalizedEvent>)
    ensures
        forall|k: int|
            0 <= k < group_bounds(group).len() ==> (#[trigger] group_bounds(group)[k]).start_us
                <= group_bounds(group)[k].end_us,
    decreases group.len(),
{
    if group.len() > 0 {
        let rest = group.drop_last();
        lemma_bounds_ordered(rest);
        assert(group_bounds(group) == (match span_bounds(group.last()) {
            Some(b) => group_bounds(rest) + seq![b],
            None => group_bounds(rest),
        }));
        assert forall|k: int| 0 <= k < group_bounds(group).len() implies (
        #[trigger] group_bounds(group)[k]).start_us <= group_bounds(group)[k].end_us by {
            if k < group_bounds(rest).len() {
                assert(group_bounds(group)[k] == group_bounds(rest)[k]);
            }
        }
    }
}

/// Whether spans in order of their bounds are pairwise disjoint.
fn sequential(sorted: &Vec<SpanBounds>) -> (r: bool)
    requires
        order::is_ranked(sorted@),
        forall|q: int|
            0 <= q < sorted@.len() ==> (#[trigger] sorted@[q]).start_us <= sorted@[q].end_us,
    ensures
        r == all_disjoint(sorted@),
{
    let m = sorted.len();
    let mut k: usize = 1;
    while k < m
        invariant
            1 <= k,
            m == sorted@.len(),
            order::is_ranked(sorted@),
            forall|q: int| 0 <= q < m ==> (#[trigger] sorted@[q]).start_us <= sorted@[q].end_us,
            forall|q: int|
                0 < q < k && q < m ==> sorted@[q - 1].end_us <= (#[trigger] sorted@[q]).start_us,
        decreases m - k,
    {
        if sorted[k - 1].end_us > sorted[k].start_us {
            proof {
                let a = sorted@[k - 1];
                let b = sorted@[k as int];
                assert(a.rank_le(&b));
                assert(!disjoint(a, b));
            }
            return false;
        }
        k += 1;
    }
    proof {
        lemma_chain_disjoint(sorted@);
    }
    true
}

/// Whether three or more of the indexed spans run one after the other under one parent.
pub(crate) fn sequential_siblings_indexed(
    spans: &Vec<NormalizedEvent>,
    indices: &Vec<usize>,
) -> (r: bool)
    requires
        forall|k: int| 0 <= k < indices@.len() ==> #[trigger] indices@[k] < spans@.len(),
    ensures
        r == siblings_in_sequence(grouping::at_positions(spans@, indices@)),
{
    let ghost group = grouping::at_positions(spans@, indices@);
    let n = indices.len();
    if n < 3 {
        return false;
    }
    let first_parent: &String = match &spans[indices[0]].event.parent_span_id {
        Some(p) => p,
        None => {
            assert(parent_of(group[0]) is None);
            return false;
        },
    };
    if first_parent.as_str().is_empty() {
        assert(first_parent@ =~= Seq::<char>::empty());
        return false;
    }
    let mut i: usize = 1;
    while i < n
        invariant
            1 <= i <= n,
            n == indices@.len(),
            forall|k: int| 0 <= k < indices@.len() ==> #[trigger] indices@[k] < spans@.len(),
            group == grouping::at_positions(spans@, indices@),
            parent_of(group[0]) == Some(first_parent@),
            forall|k: int| 0 <= k < i ==> parent_of(#[trigger] group[k]) == parent_of(group[0]),
        decreases n - i,
    {
        let same = match &spans[indices[i]].event.parent_span_id {
            Some(p) => *p == *first_parent,
            None => false,
        };
        if !same {
            assert(parent_of(group[i as int]) != parent_of(group[0]));
            return false;
        }
        i += 1;
    }
    let mut bounds: Vec<SpanBounds> = Vec::new();
    let mut j: usize = 0;
    proof {
        assert(bounds@ =~= group_bounds(group.take(0)));
    }
    while j < n
        invariant
            j <= n,
            n == indices@.len(),
            forall|k: int| 0 <= k < indices@.len() ==> #[trigger] indices@[k] < spans@.len(),
            group == grouping::at_positions(spans@, indices@),
            bounds@ == group_bounds(group.take(j as int)),
        decreases n - j,
    {
        proof {
            assert(group.take(j + 1).drop_last() =~= group.take(j as int));
            assert(group.take(j + 1).last() == spans@[indices@[j as int] as int]);
        }
        if let Some(b) = bounds_of(&spans[indices[j]]) {
            bounds.push(b);
        }
        assert(bounds@ =~= group_bounds(group.take(j + 1)));
        j += 1;
    }
    assert(group.take(j as int) =~= group);
    if bounds.len() < 3 {
        return false;
    }
    let ghost unsorted = bounds@;
    let sorted = order::sort_ranked(bounds);
    proof {
        order::lemma_ranked(unsorted);
        lemma_all_disjoint_permutation(unsorted, sorted@);
        lemma_bounds_ordered(group);
        lemma_same_members(unsorted, sorted@);
    }
    sequential(&sorted)
}

proof fn lemma_same_members(s: Seq<SpanBounds>, t: Seq<SpanBounds>)
    requires
        s.to_multiset() == t.to_multiset(),
        forall|k: int| 0 <= k < s.len() ==> (#[trigger] s[k]).start_us <= s[k].end_us,
    ensures
        forall|k: int| 0 <= k < t.len() ==> (#[trigger] t[k]).start_us <= t[k].end_us,
{
    broadcast use vstd::seq_lib::group_to_multiset_ensures;

    assert forall|k: int| 0 <= k < t.len() implies (#[trigger] t[k]).start_us <= t[k].end_us by {
        assert(t.contains(t[k]));
        assert(s.to_multiset().count(t[k]) > 0);
        assert(s.contains(t[k]));
    }
}

/// The verdict on a sanitized SQL group.
pub(crate) fn classify_sanitized_sql_group_indexed(
    spans: &Vec<NormalizedEvent>,
    indices: &Vec<usize>,
    mode: SanitizerAwareMode,
    high_occurrence: bool,
) -> (r: SanitizerVerdict)
    requires
        forall|k: int| 0 <= k < indices@.len() ==> #[trigger] indices@[k] < spans@.len(),
    ensures
        r == sanitizer_aware::verdict(
            sql_group_likely(grouping::at_positions(spans@, indices@), mode, high_occurrence),
        ),
{
    let group = sanitizer_aware::gather(spans, indices);
    let scopes = sanitizer_aware::collect_scopes(group.as_slice());
    match mode {
        SanitizerAwareMode::Strict => {
            let primary = sanitizer_aware::has_orm_scope(scopes.as_slice()) || high_occurrence
                || sequential_siblings_indexed(spans, indices);
            let corroborated = high_occurrence
                || sanitizer_aware::timing_variance_suggests_n_plus_one(group.as_slice());
            if primary && corroborated {
                SanitizerVerdict::LikelyNPlusOne
            } else {
                SanitizerVerdict::Inconclusive
            }
        },
        _ => sanitizer_aware::classify_sanitized_sql_group(group.as_slice(), scopes.as_slice()),
    }
}

/// The verdict on an HTTP group.
pub(crate) fn classify_http_group_indexed(
    spans: &Vec<NormalizedEvent>,
    indices: &Vec<usize>,
    mode: SanitizerAwareMode,
    high_occurrence: bool,
) -> (r: SanitizerVerdict)
    requires
        forall|k: int| 0 <= k < indices@.len() ==> #[trigger] indices@[k] < spans@.len(),
        indices@.len() > 0,
    ensures
        r == sanitizer_aware::verdict(
            http_group_likely(grouping::at_positions(spans@, indices@), mode, high_occurrence),
        ),
{
    let group = sanitizer_aware::gather(spans, indices);
    let likely = match mode {
        SanitizerAwareMode::Strict => {
            let primary = high_occurrence || text::contains_char(
                spans[indices[0]].template.as_str(),
                '{',
            ) || sequential_siblings_indexed(spans, indices);
            primary && (high_occurrence || sanitizer_aware::timing_variance_suggests_n_plus_one(
                group.as_slice(),
            ))
        },
        _ => sanitizer_aware::timing_variance_suggests_n_plus_one(group.as_slice()),
    };
    if likely {
        SanitizerVerdict::LikelyNPlusOne
    } else {
        SanitizerVerdict::Inconclusive
    }
}

/// The value of an exec classification.
pub open spec fn classification_view(c: Option<(usize, Option<ClassificationMethod>)>) -> Option<
    (nat, Option<ClassificationMethod>),
> {
    match c {
        Some((n, m)) => Some((n as nat, m)),
        None => None,
    }
}

/// Decide whether a group of operations is an N+1 and by which method.
pub(crate) fn classify_group(
    trace: &Trace,
    event_type: &EventType,
    indices: &Vec<usize>,
    threshold: usize,
    mode: SanitizerAwareMode,
) -> (r: Option<(usize, Option<ClassificationMethod>)>)
    requires
        forall|k: int| 0 <= k < indices@.len() ==> #[trigger] indices@[k] < trace.spans@.len(),
        indices@.len() > 0,
        *event_type == trace.spans@[indices@[0] as int].event.event_type,
    ensures
        classification_view(r) == classification(
            grouping::at_positions(trace.spans@, indices@),
            threshold as nat,
            mode,
        ),
{
    let ghost group = grouping::at_positions(trace.spans@, indices@);
    if indices.len() < threshold {
        return None;
    }
    let distinct_params = measure::count_distinct_params(&trace.spans, indices);
    if distinct_params >= threshold {
        return Some((distinct_params, None));
    }
    if mode == SanitizerAwareMode::Never {
        return None;
    }
    let high_occurrence = indices.len() as u128 >= 3 * threshold as u128;
    match event_type {
        EventType::Sql => {
            let group_refs = sanitizer_aware::gather(&trace.spans, indices);
            if !sanitizer_aware::looks_sanitized(group_refs.as_slice()) {
                return None;
            }
            if mode == SanitizerAwareMode::Always {
                return Some((1, Some(ClassificationMethod::SanitizerHeuristic)));
            }
            match classify_sanitized_sql_group_indexed(
                &trace.spans,
                indices,
                mode,
                high_occurrence,
            ) {
                SanitizerVerdict::LikelyNPlusOne => Some(
                    (1, Some(ClassificationMethod::SanitizerHeuristic)),
                ),
                SanitizerVerdict::Inconclusive => None,
            }
        },
        EventType::HttpOut => {
            if mode == SanitizerAwareMode::Always {
                return Some((distinct_params, Some(ClassificationMethod::SanitizerHeuristic)));
            }
            match classify_http_group_indexed(&trace.spans, indices, mode, high_occurrence) {
                SanitizerVerdict::LikelyNPlusOne => Some(
                    (distinct_params, Some(ClassificationMethod::SanitizerHeuristic)),
                ),
                SanitizerVerdict::Inconclusive => None,
            }
        },
    }
}

fn batching_suggestion(event_type: &EventType, occurrences: usize) -> (r: String)
    ensures
        r@ == batching_hint(*event_type, occurrences as nat),
{
    let mut out = String::new();
    match event_type {
        EventType::Sql => {
            out.append("Use WHERE ... IN (?) to batch ");
            text::append_decimal(&mut out, occurrences as u64);
            out.append(" queries into one");
        },
        EventType::HttpOut => {
            out.append("Use batch endpoint with ?ids=... to batch ");
            text::append_decimal(&mut out, occurrences as u64);
            out.append(" calls into one");
        },
    }
    assert(out@ =~= batching_hint(*event_type, occurrences as nat));
    out
}

/// The finding on a classified group; `None` if its time window exceeds the limit.
pub(crate) fn build_finding(
    trace: &Trace,
    event_type: &EventType,
    indices: &Vec<usize>,
    window_limit: u64,
    distinct_params: usize,
    classification_method: Option<ClassificationMethod>,
) -> (r: Option<Finding>)
    requires
        forall|k: int| 0 <= k < indices@.len() ==> #[trigger] indices@[k] < trace.spans@.len(),
        indices@.len() > 0,
        *event_type == trace.spans@[indices@[0] as int].event.event_type,
    ensures
        ({
            let group = grouping::at_positions(trace.spans@, indices@);
            if measure::window(measure::timestamps(group)) > window_limit {
                r is None
            } else {
                r matches Some(f) && f@ == finding::group_finding(
                    FindingType::n_plus_one(*event_type),
                    occurrence_severity(group.len()),
                    trace.trace_id@,
                    group,
                    distinct_params as nat,
                    batching_hint(*event_type, group.len()),
                    classification_method,
                )
            }
        }),
{
    let stamps = measure::timestamps_at(&trace.spans, indices);
    let (window_ms, min_ts, max_ts) = measure::compute_window_and_bounds(stamps.as_slice());
    if window_ms > window_limit {
        return None;
    }
    let first = &trace.spans[indices[0]];
    let severity = if indices.len() >= CRITICAL_OCCURRENCE_THRESHOLD {
        Severity::Critical
    } else {
        Severity::Warning
    };
    Some(
        finding::build_per_trace_finding(
            PerTraceFindingArgs {
                finding_type: FindingType::from_event_type_n_plus_one(event_type),
                severity,
                trace_id: trace.trace_id.as_str(),
                first_span: first,
                template: first.template.as_str(),
                occurrences: indices.len(),
                window_ms,
                distinct_params,
                suggestion: batching_suggestion(event_type, indices.len()),
                first_timestamp: min_ts,
                last_timestamp: max_ts,
                code_location: first.event.code_location(),
                instrumentation_scopes: first.event.instrumentation_scopes.clone(),
                classification_method,
            },
        ),
    )
}

/// Detect N+1 patterns in a single trace.
///
/// Groups spans by kind of operation and template and reports a group when the number of its
/// occurrences reaches `threshold` within `window_limit` milliseconds. A group with as many
/// distinct parameter lists is classified directly; one with fewer is classified by the heuristic
/// that `mode` selects.
pub fn detect_n_plus_one(
    trace: &Trace,
    threshold: u32,
    window_limit: u64,
    mode: SanitizerAwareMode,
) -> (r: Vec<Finding>)
    ensures
        finding::finding_views(r@) == n_plus_one_findings(
            trace.trace_id@,
            trace.spans@,
            threshold as nat,
            window_limit,
            mode,
        ),
{
    let ghost f = |group: Seq<NormalizedEvent>|
        n_plus_one_finding(trace.trace_id@, group, threshold as nat, window_limit, mode);
    let ghost all = grouping::groups(ByTemplate {  }, trace.spans@);
    let groups = grouping::group_items(&ByTemplate {  }, &trace.spans);
    let mut findings: Vec<Finding> = Vec::new();
    let mut k: usize = 0;
    assert(finding::finding_views(findings@) =~= all.take(0).filter_map(f));
    while k < groups.len()
        invariant
            k <= groups@.len(),
            groups@.len() == all.len(),
            f == (|group: Seq<NormalizedEvent>|
                n_plus_one_finding(trace.trace_id@, group, threshold as nat, window_limit, mode)),
            forall|m: int|
                0 <= m < groups@.len() ==> grouping::at_positions(
                    trace.spans@,
                    (#[trigger] groups@[m])@,
                ) == all[m],
            forall|m: int|
                0 <= m < groups@.len() ==> grouping::ascending_positions(
                    (#[trigger] groups@[m])@,
                    trace.spans@.len(),
                ) && groups@[m]@.len() > 0,
            finding::finding_views(findings@) == all.take(k as int).filter_map(f),
        decreases groups@.len() - k,
    {
        let indices = &groups[k];
        let ghost group = all[k as int];
        let ghost before = findings@;
        proof {
            assert(all.take(k + 1).drop_last() =~= all.take(k as int));
            assert(all.take(k + 1).last() == group);
            assert(grouping::at_positions(trace.spans@, indices@) == group);
        }
        let event_type = trace.spans[indices[0]].event.event_type;
        if let Some((distinct_params, method)) = classify_group(
            trace,
            &event_type,
            indices,
            threshold as usize,
            mode,
        ) {
            if let Some(finding) = build_finding(
                trace,
                &event_type,
                indices,
                window_limit,
                distinct_params,
                method,
            ) {
                findings.push(finding);
                assert(finding::finding_views(findings@) =~= finding::finding_views(before).push(
                    finding@,
                ));
                assert(f(group) == Some(finding@));
            }
        }
        assert(finding::finding_views(findings@) =~= all.take(k + 1).filter_map(f));
        k += 1;
    }
    assert(all.take(k as int) =~= all);
    findings
}

/// A span whose timestamp can be read starts there and lasts for the whole of its duration, to the
/// microsecond, as far as `u64` reaches.
pub proof fn law_span_lasts_for_its_duration(s: NormalizedEvent)
    ensures
        span_bounds(s) is Some <==> time::timestamp_ms(s.event.timestamp@) is Some,
        span_bounds(s) is Some ==> {
            let b = span_bounds(s)->0;
            let start = 1000 * time::timestamp_ms(s.event.timestamp@)->0;
            &&& b.start_us == start
            &&& start + s.event.duration_us <= u64::MAX ==> b.end_us - b.start_us
                == s.event.duration_us
            &&& start + s.event.duration_us > u64::MAX ==> b.end_us == u64::MAX
        },
{
    time::law_timestamps_end_with_the_year_9999(s.event.timestamp@);
}

/// Calls run in sequence if and only if there are three or more of them, under one parent with a
/// name, and three or more have a timestamp that can be read, of which no two overlap: one of any
/// two has lasted for its whole duration, to the microsecond, when the other starts.
pub proof fn law_sequence_leaves_no_overlap(group: Seq<NormalizedEvent>)
    requires
        forall|i: int|
            0 <= i < group.len() ==> (#[trigger] group[i]).event.duration_us <= u64::MAX / 2,
    ensures
        ({
            let timed = group.filter(
                |s: NormalizedEvent| time::timestamp_ms(s.event.timestamp@) is Some,
            );
            let start = |i: int| 1000 * time::timestamp_ms(timed[i].event.timestamp@)->0;
            let end = |i: int| start(i) + timed[i].event.duration_us;
            siblings_in_sequence(group) <==> group.len() >= 3 && group[0].event.parent_span_id is Some
                && group[0].event.parent_span_id->0@.len() > 0 && (forall|i: int|
                0 <= i < group.len() ==> (#[trigger] group[i]).event.parent_span_id is Some
                    && group[i].event.parent_span_id->0@ == group[0].event.parent_span_id->0@)
                && timed.len()
                >= 3 && forall|i: int, j: int|
                0 <= i < j < timed.len() ==> #[trigger] end(i) <= #[trigger] start(j) || end(j)
                    <= start(i)
        }),
{
    let has_time = |s: NormalizedEvent| time::timestamp_ms(s.event.timestamp@) is Some;
    let timed = group.filter(has_time);
    let bounds = group_bounds(group);
    lemma_bounds_of_timed(group);
    assert forall|i: int| 0 <= i < timed.len() implies span_bounds(#[trigger] timed[i]) == Some(
        bounds[i],
    ) && bounds[i].start_us == 1000 * time::timestamp_ms(timed[i].event.timestamp@)->0
        && bounds[i].end_us == bounds[i].start_us + timed[i].event.duration_us by {
        assert(timed.contains(timed[i]));
        permutation::lemma_filter_contains(group, has_time, timed[i]);
        let k = choose|k: int| 0 <= k < group.len() && group[k] == timed[i];
        assert(group[k].event.duration_us <= u64::MAX / 2);
        law_span_lasts_for_its_duration(timed[i]);
        time::law_timestamps_end_with_the_year_9999(timed[i].event.timestamp@);
    }
    let start = |i: int| 1000 * time::timestamp_ms(timed[i].event.timestamp@)->0;
    let end = |i: int| start(i) + timed[i].event.duration_us;
    assert((forall|i: int, j: int|
        0 <= i < j < timed.len() ==> #[trigger] end(i) <= #[trigger] start(j) || end(j)
            <= start(i)) == all_disjoint(bounds)) by {
        if all_disjoint(bounds) {
            assert forall|i: int, j: int| 0 <= i < j < timed.len() implies (#[trigger] end(i)
                <= #[trigger] start(j) || end(j) <= start(i)) by {
                assert(disjoint(bounds[i], bounds[j]));
                assert(span_bounds(timed[i]) == Some(bounds[i]));
                assert(span_bounds(timed[j]) == Some(bounds[j]));
            }
        }
        if forall|i: int, j: int|
            0 <= i < j < timed.len() ==> #[trigger] end(i) <= #[trigger] start(j) || end(j)
                <= start(i) {
            assert forall|i: int, j: int|
                #![trigger bounds[i], bounds[j]]
                0 <= i < j < bounds.len() implies disjoint(bounds[i], bounds[j]) by {
                assert(end(i) <= start(j) || end(j) <= start(i));
                assert(span_bounds(timed[i]) == Some(bounds[i]));
                assert(span_bounds(timed[j]) == Some(bounds[j]));
            }
        }
    }
    if group.len() >= 3 {
        assert forall|i: int| 0 <= i < group.len() implies (parent_of(#[trigger] group[i])
            == parent_of(group[0]) && parent_of(group[0]) is Some) == (
        group[i].event.parent_span_id is Some && group[0].event.parent_span_id is Some
            && group[i].event.parent_span_id->0@ == group[0].event.parent_span_id->0@) by {}
        let p = group[0].event.parent_span_id->0@;
        assert(p.len() == 0 <==> p =~= Seq::<char>::empty());
    }
}

proof fn lemma_bounds_of_timed(group: Seq<NormalizedEvent>)
    ensures
        ({
            let timed = group.filter(
                |s: NormalizedEvent| time::timestamp_ms(s.event.timestamp@) is Some,
            );
            &&& group_bounds(group).len() == timed.len()
            &&& forall|i: int|
                0 <= i < timed.len() ==> span_bounds(#[trigger] timed[i]) == Some(
                    group_bounds(group)[i],
                )
        }),
    decreases group.len(),
{
    reveal(Seq::filter);
    if group.len() > 0 {
        let rest = group.drop_last();
        lemma_bounds_of_timed(rest);
        let has_time = |s: NormalizedEvent| time::timestamp_ms(s.event.timestamp@) is Some;
        let before = rest.filter(has_time);
        let timed = group.filter(has_time);
        assert forall|i: int| 0 <= i < timed.len() implies span_bounds(#[trigger] timed[i])
            == Some(group_bounds(group)[i]) by {
            if i < before.len() {
                assert(timed[i] == before[i]);
                assert(group_bounds(group)[i] == group_bounds(rest)[i]);
            }
        }
    }
}

/// There are no more bounds than spans.
pub proof fn lemma_bounds_number(group: Seq<NormalizedEvent>)
    ensures
        group_bounds(group).len() <= group.len(),
    decreases group.len(),
{
    if group.len() > 0 {
        lemma_bounds_number(group.drop_last());
    }
}

} // verus!

//! Slow query/call detection.
//!
//! Detects recurring slow operations: the same normalized template with a duration above a
//! threshold, within one trace or across traces.

use crate::arith;
use crate::detect::finding;
use crate::detect::finding::{
    Confidence, Finding, FindingType, FindingView, Pattern, PatternView, PerTraceFindingArgs,
    Severity,
};
use crate::detect::grouping;
use crate::detect::grouping::Classifier;
use crate::detect::measure;
use crate::event;
use crate::event::{EventType, NormalizedEvent, Trace};
use crate::order;
use crate::order::Ranked;
use crate::permutation;
use crate::rendering;
use crate::text;
use crate::time;
use vstd::prelude::*;
use vstd::string::*;

verus! {

/// The spans slower than a threshold, by kind of operation and template.
pub struct SlowSpans {
    pub threshold_us: u64,
}

impl Classifier<NormalizedEvent> for SlowSpans {
    type Key = (EventType, Seq<char>);

    open spec fn judges(&self, span: NormalizedEvent) -> bool {
        true
    }

    open spec fn included(&self, span: NormalizedEvent) -> bool {
        span.event.duration_us > self.threshold_us
    }

    open spec fn key(&self, span: NormalizedEvent) -> (EventType, Seq<char>) {
        (span.event.event_type, span.template@)
    }

    fn includes(&self, span: &NormalizedEvent) -> (r: bool) {
        span.event.duration_us > self.threshold_us
    }

    fn same_key(&self, a: &NormalizedEvent, b: &NormalizedEvent) -> (r: bool) {
        a.event.event_type == b.event.event_type && a.template == b.template
    }
}

/// The longest duration of a group.
pub open spec fn longest(group: Seq<NormalizedEvent>) -> u64
    decreases group.len(),
{
    if group.len() == 0 {
        0
    } else if group.last().event.duration_us > longest(group.drop_last()) {
        group.last().event.duration_us
    } else {
        longest(group.drop_last())
    }
}

/// The threshold in microseconds.
pub open spec fn threshold_us(threshold_ms: u64) -> u64 {
    arith::capped(threshold_ms * 1000)
}

/// Critical above five times the threshold.
pub open spec fn duration_severity(duration_us: u64, threshold_us: u64) -> Severity {
    if duration_us > arith::capped(threshold_us * 5) {
        Severity::Critical
    } else {
        Severity::Warning
    }
}

/// The remediation hint for a slow operation of a kind.
pub open spec fn slow_hint(event_type: EventType) -> Seq<char> {
    match event_type {
        EventType::Sql => "Consider adding an index or optimizing query"@,
        EventType::HttpOut => "Consider caching or optimizing endpoint"@,
    }
}

/// The finding on a group of slow operations, if there are enough of them.
pub open spec fn slow_finding(
    trace_id: Seq<char>,
    group: Seq<NormalizedEvent>,
    threshold_us: u64,
    min_occurrences: nat,
) -> Option<FindingView> {
    if group.len() < min_occurrences {
        None
    } else {
        Some(
            finding::group_finding(
                FindingType::slow(group[0].event.event_type),
                duration_severity(longest(group), threshold_us),
                trace_id,
                group,
                measure::distinct_params(group),
                slow_hint(group[0].event.event_type),
                None,
            ),
        )
    }
}

/// The slow findings of a trace, in order of first occurrence.
pub open spec fn slow_findings(
    trace_id: Seq<char>,
    spans: Seq<NormalizedEvent>,
    threshold_ms: u64,
    min_occurrences: nat,
) -> Seq<FindingView> {
    let limit = threshold_us(threshold_ms);
    grouping::groups(SlowSpans { threshold_us: limit }, spans).filter_map(
        |group: Seq<NormalizedEvent>| slow_finding(trace_id, group, limit, min_occurrences),
    )
}

fn longest_of(spans: &Vec<NormalizedEvent>, indices: &Vec<usize>) -> (r: u64)
    requires
        forall|k: int| 0 <= k < indices@.len() ==> #[trigger] indices@[k] < spans@.len(),
    ensures
        r == longest(grouping::at_positions(spans@, indices@)),
{
    let ghost group = grouping::at_positions(spans@, indices@);
    let mut best: u64 = 0;
    let mut i: usize = 0;
    while i < indices.len()
        invariant
            i <= indices@.len(),
            forall|k: int| 0 <= k < indices@.len() ==> #[trigger] indices@[k] < spans@.len(),
            group == grouping::at_positions(spans@, indices@),
            best == longest(group.take(i as int)),
        decreases indices@.len() - i,
    {
        let d = spans[indices[i]].event.duration_us;
        proof {
            assert(group.take(i + 1).drop_last() =~= group.take(i as int));
            assert(group.take(i + 1).last() == spans@[indices@[i as int] as int]);
        }
        if d > best {
            best = d;
        }
        i += 1;
    }
    assert(group.take(i as int) =~= group);
    best
}

fn severity_of(duration_us: u64, threshold_us: u64) -> (r: Severity)
    ensures
        r == duration_severity(duration_us, threshold_us),
{
    if duration_us > arith::capped_product(threshold_us, 5) {
        Severity::Critical
    } else {
        Severity::Warning
    }
}

fn build_slow_finding(
    trace: &Trace,
    indices: &Vec<usize>,
    threshold_us: u64,
    min_occ: usize,
) -> (r: Option<Finding>)
    requires
        forall|k: int| 0 <= k < indices@.len() ==> #[trigger] indices@[k] < trace.spans@.len(),
        indices@.len() > 0,
    ensures
        ({
            let expected = slow_finding(
                trace.trace_id@,
                grouping::at_positions(trace.spans@, indices@),
                threshold_us,
                min_occ as nat,
            );
            match r {
                Some(f) => expected == Some(f@),
                None => expected is None,
            }
        }),
{
    if indices.len() < min_occ {
        return None;
    }
    let severity = severity_of(longest_of(&trace.spans, indices), threshold_us);
    let stamps = measure::timestamps_at(&trace.spans, indices);
    let (window_ms, min_ts, max_ts) = measure::compute_window_and_bounds(stamps.as_slice());
    let distinct_params = measure::count_distinct_params(&trace.spans, indices);
    let first = &trace.spans[indices[0]];
    let suggestion = match first.event.event_type {
        EventType::Sql => "Consider adding an index or optimizing query",
        EventType::HttpOut => "Consider caching or optimizing endpoint",
    };
    Some(
        finding::build_per_trace_finding(
            PerTraceFindingArgs {
                finding_type: FindingType::from_event_type_slow(&first.event.event_type),
                severity,
                trace_id: trace.trace_id.as_str(),
                first_span: first,
                template: first.template.as_str(),
                occurrences: indices.len(),
                window_ms,
                distinct_params,
                suggestion: suggestion.to_string(),
                first_timestamp: min_ts,
                last_timestamp: max_ts,
                code_location: first.event.code_location(),
                instrumentation_scopes: first.event.instrumentation_scopes.clone(),
                classification_method: None,
            },
        ),
    )
}

/// Detect recurring slow operations in a single trace.
///
/// Reports a template of which `min_occurrences` spans or more took longer than `threshold_ms`.
pub fn detect_slow(trace: &Trace, threshold_ms: u64, min_occurrences: u32) -> (r: Vec<Finding>)
    ensures
        finding::finding_views(r@) == slow_findings(
            trace.trace_id@,
            trace.spans@,
            threshold_ms,
            min_occurrences as nat,
        ),
{
    let limit = arith::capped_product(threshold_ms, 1000);
    let classifier = SlowSpans { threshold_us: limit };
    let ghost f = |group: Seq<NormalizedEvent>|
        slow_finding(trace.trace_id@, group, limit, min_occurrences as nat);
    let ghost all = grouping::groups(classifier, trace.spans@);
    let groups = grouping::group_items(&classifier, &trace.spans);
    let mut findings: Vec<Finding> = Vec::new();
    let mut k: usize = 0;
    assert(finding::finding_views(findings@) =~= all.take(0).filter_map(f));
    while k < groups.len()
        invariant
            k <= groups@.len(),
            groups@.len() == all.len(),
            f == (|group: Seq<NormalizedEvent>|
                slow_finding(trace.trace_id@, group, limit, min_occurrences as nat)),
            forall|m: int|
                0 <= m < groups@.len() ==> grouping::at_positions(
                    trace.spans@,
                    (#[trigger] groups@[m])@,
                ) == all[m],
            forall|m: int|
                0 <= m < groups@.len() ==> grouping::ascending_positions(
                    (#[trigger] groups@[m])@,
                    trace.spans@.len(),
                ) && groups@[m]@.len() > 0,
            finding::finding_views(findings@) == all.take(k as int).filter_map(f),
        decreases groups@.len() - k,
    {
        let indices = &groups[k];
        let ghost before = findings@;
        proof {
            assert(all.take(k + 1).drop_last() =~= all.take(k as int));
            assert(all.take(k + 1).last() == grouping::at_positions(trace.spans@, indices@));
        }
        if let Some(finding) = build_slow_finding(trace, indices, limit, min_occurrences as usize) {
            findings.push(finding);
            assert(finding::finding_views(findings@) =~= finding::finding_views(before).push(
                finding@,
            ));
        }
        assert(finding::finding_views(findings@) =~= all.take(k + 1).filter_map(f));
        k += 1;
    }
    assert(all.take(k as int) =~= all);
    findings
}

/// Nearest-rank percentile index: `ceil(p * n / 100) - 1`, kept within `0` to `n - 1`.
pub open spec fn percentile_position(n: nat, p: nat) -> nat {
    let rank = (p * n + 99) / 100;
    let index = if rank > 0 {
        (rank - 1) as nat
    } else {
        0
    };
    if index < n {
        index
    } else {
        (n - 1) as nat
    }
}

/// Nearest-rank percentile index of `n` sorted values.
pub fn percentile_index(n: usize, p: usize) -> (r: usize)
    requires
        n > 0,
    ensures
        r == percentile_position(n as nat, p as nat),
        r < n,
{
    assert(0 <= p * n <= 0xffff_ffff_ffff_ffff * 0xffff_ffff_ffff_ffff) by (nonlinear_arith)
        requires
            n <= 0xffff_ffff_ffff_ffff,
            p <= 0xffff_ffff_ffff_ffff,
    ;
    let rank: u128 = (p as u128 * n as u128 + 99) / 100;
    let index: u128 = if rank > 0 {
        rank - 1
    } else {
        0
    };
    if index < n as u128 {
        index as usize
    } else {
        n - 1
    }
}

/// A span of one of several traces: the position of its trace, and its own position there.
#[derive(Debug, Clone, Copy, PartialEq, Eq, Structural)]
pub struct SpanPosition {
    pub trace: usize,
    pub span: usize,
}

/// The span at a position.
pub open spec fn span_at(traces: Seq<Trace>, p: SpanPosition) -> NormalizedEvent {
    traces[p.trace as int].spans@[p.span as int]
}

/// Whether a position is that of a span.
pub open spec fn is_position(traces: Seq<Trace>, p: SpanPosition) -> bool {
    p.trace < traces.len() && p.span < traces[p.trace as int].spans@.len()
}

/// The positions of the first `n` spans of one trace.
pub open spec fn positions_in(trace: int, n: nat) -> Seq<SpanPosition> {
    Seq::new(n, |i: int| SpanPosition { trace: trace as usize, span: i as usize })
}

/// The positions of all spans of the first `n` traces, in order.
pub open spec fn all_positions(traces: Seq<Trace>, n: nat) -> Seq<SpanPosition>
    decreases n,
{
    if n == 0 {
        Seq::empty()
    } else {
        all_positions(traces, (n - 1) as nat) + positions_in(n - 1, traces[n - 1].spans@.len())
    }
}

/// All spans of several traces, fast ones and slow ones, by kind of operation and template.
pub struct AcrossTraces<'a> {
    pub traces: &'a [Trace],
}

impl<'a> Classifier<SpanPosition> for AcrossTraces<'a> {
    type Key = (EventType, Seq<char>);

    open spec fn judges(&self, p: SpanPosition) -> bool {
        is_position(self.traces@, p)
    }

    open spec fn included(&self, p: SpanPosition) -> bool {
        true
    }

    open spec fn key(&self, p: SpanPosition) -> (EventType, Seq<char>) {
        let span = span_at(self.traces@, p);
        (span.event.event_type, span.template@)
    }

    fn includes(&self, p: &SpanPosition) -> (r: bool) {
        true
    }

    fn same_key(&self, a: &SpanPosition, b: &SpanPosition) -> (r: bool) {
        let x = &self.traces[a.trace].spans[a.span];
        let y = &self.traces[b.trace].spans[b.span];
        x.event.event_type == y.event.event_type && x.template == y.template
    }
}

/// A span with its duration.
#[derive(Debug, Clone, Copy, PartialEq, Eq, Structural)]
pub struct DurationEntry {
    pub duration_us: u64,
    pub at: SpanPosition,
}

impl Ranked for DurationEntry {
    open spec fn rank_le(&self, other: &Self) -> bool {
        self.duration_us <= other.duration_us
    }

    proof fn rank_total(a: Self, b: Self) {
    }

    proof fn rank_transitive(a: Self, b: Self, c: Self) {
    }

    fn may_precede(&self, other: &Self) -> (r: bool) {
        self.duration_us <= other.duration_us
    }
}

/// The spans of a group with their durations.
pub open spec fn entries(traces: Seq<Trace>, group: Seq<SpanPosition>) -> Seq<DurationEntry> {
    group.map_values(
        |p: SpanPosition| DurationEntry { duration_us: span_at(traces, p).event.duration_us, at: p },
    )
}

/// The trace of each span of a group.
pub open spec fn trace_ids(traces: Seq<Trace>, group: Seq<SpanPosition>) -> Seq<Seq<char>> {
    group.map_values(|p: SpanPosition| traces[p.trace as int].trace_id@)
}

/// The timestamps of entries.
pub open spec fn entry_timestamps(traces: Seq<Trace>, sorted: Seq<DurationEntry>) -> Seq<Seq<char>> {
    sorted.map_values(|e: DurationEntry| span_at(traces, e.at).event.timestamp@)
}

/// What to consider for a slow operation of a kind.
pub open spec fn cross_trace_advice(event_type: EventType) -> Seq<char> {
    match event_type {
        EventType::Sql => "adding an index or optimizing query"@,
        EventType::HttpOut => "caching or optimizing endpoint"@,
    }
}

/// The remediation hint with the percentiles of the durations.
pub open spec fn cross_trace_hint(
    event_type: EventType,
    p50: u64,
    p95: u64,
    p99: u64,
    n: nat,
) -> Seq<char> {
    "Cross-trace analysis: p50="@ + rendering::one_decimal(p50 as nat) + "ms, p95="@
        + rendering::one_decimal(p95 as nat) + "ms, p99="@ + rendering::one_decimal(p99 as nat)
        + "ms across "@ + text::decimal(n) + " occurrences. Consider "@ + cross_trace_advice(
        event_type,
    )
}

/// The finding on the spans of one operation in several traces: if there are enough of them, from
/// two traces at least, and the 99th percentile of their durations exceeds the threshold. It names
/// the trace of the slowest span.
pub open spec fn cross_trace_finding(
    traces: Seq<Trace>,
    group: Seq<SpanPosition>,
    min_occurrences: nat,
    threshold_us: u64,
) -> Option<FindingView> {
    let sorted = order::ranked(entries(traces, group));
    let n = group.len();
    let p50 = percentile(traces, group, 50);
    let p95 = percentile(traces, group, 95);
    let p99 = percentile(traces, group, 99);
    if n < min_occurrences || measure::distinct(trace_ids(traces, group)) < 2 || p99
        <= threshold_us {
        None
    } else {
        let worst = sorted[n - 1];
        let span = span_at(traces, worst.at);
        let event_type = span_at(traces, group[0]).event.event_type;
        let ts = entry_timestamps(traces, sorted);
        Some(
            FindingView {
                finding_type: FindingType::slow(event_type),
                severity: duration_severity(worst.duration_us, threshold_us),
                trace_id: traces[worst.at.trace as int].trace_id@,
                service: span.event.service@,
                grouping: event::grouping_views(span.event.grouping@),
                source_endpoint: span.event.source.endpoint@,
                pattern: PatternView {
                    template: span_at(traces, group[0]).template@,
                    occurrences: n,
                    window_ms: measure::window(ts),
                    distinct_params: 0,
                    occurrences_by_service: Seq::empty(),
                },
                suggestion: cross_trace_hint(event_type, p50, p95, p99, n),
                first_timestamp: measure::earliest(ts),
                last_timestamp: measure::latest(ts),
                green_impact: None,
                confidence: Confidence::CiBatch,
                classification_method: None,
                code_location: span.event.location(),
                instrumentation_scopes: event::texts(span.event.instrumentation_scopes@),
                suggested_fix: None,
                signature: Seq::empty(),
            },
        )
    }
}

/// The positions of all spans of one operation, given by kind and template, over all traces.
pub open spec fn positions_of(traces: &[Trace], k: (EventType, Seq<char>)) -> Seq<SpanPosition> {
    grouping::class_members(AcrossTraces { traces }, all_positions(traces@, traces@.len()), k)
}

/// The nearest-rank percentile of the durations of spans.
pub open spec fn percentile(traces: Seq<Trace>, group: Seq<SpanPosition>, p: nat) -> u64 {
    order::ranked(entries(traces, group))[percentile_position(group.len(), p) as int].duration_us
}

/// The slow findings across traces, in order of first occurrence.
pub open spec fn cross_trace_findings(
    traces: &[Trace],
    threshold_ms: u64,
    min_occurrences: nat,
) -> Seq<FindingView> {
    let limit = threshold_us(threshold_ms);
    grouping::groups(AcrossTraces { traces }, all_positions(traces@, traces@.len())).filter_map(
        |group: Seq<SpanPosition>|
            cross_trace_finding(traces@, group, min_occurrences, limit),
    )
}

fn list_positions(traces: &[Trace]) -> (r: Vec<SpanPosition>)
    ensures
        r@ == all_positions(traces@, traces@.len()),
        forall|i: int| 0 <= i < r@.len() ==> is_position(traces@, #[trigger] r@[i]),
{
    let mut out: Vec<SpanPosition> = Vec::new();
    let mut t: usize = 0;
    while t < traces.len()
        invariant
            t <= traces@.len(),
            out@ == all_positions(traces@, t as nat),
            forall|i: int| 0 <= i < out@.len() ==> is_position(traces@, #[trigger] out@[i]),
        decreases traces@.len() - t,
    {
        let ghost before = out@;
        let mut s: usize = 0;
        while s < traces[t].spans.len()
            invariant
                t < traces@.len(),
                s <= traces@[t as int].spans@.len(),
                out@ == before + positions_in(t as int, s as nat),
                forall|i: int| 0 <= i < out@.len() ==> is_position(traces@, #[trigger] out@[i]),
            decreases traces@[t as int].spans@.len() - s,
        {
            out.push(SpanPosition { trace: t, span: s });
            assert(out@ =~= before + positions_in(t as int, (s + 1) as nat));
            s += 1;
        }
        t += 1;
    }
    out
}

fn count_traces(traces: &[Trace], group: &Vec<SpanPosition>) -> (r: usize)
    requires
        forall|i: int| 0 <= i < group@.len() ==> is_position(traces@, #[trigger] group@[i]),
    ensures
        r == measure::distinct(trace_ids(traces@, group@)),
{
    let ghost ids = trace_ids(traces@, group@);
    let mut count: usize = 0;
    let mut i: usize = 0;
    proof {
        measure::lemma_distinct_bound(ids.take(0));
    }
    while i < group.len()
        invariant
            i <= group@.len(),
            forall|k: int| 0 <= k < group@.len() ==> is_position(traces@, #[trigger] group@[k]),
            ids == trace_ids(traces@, group@),
            count == measure::distinct(ids.take(i as int)),
            count <= i,
        decreases group@.len() - i,
    {
        let mut j: usize = 0;
        while j < i && traces[group[j].trace].trace_id != traces[group[i].trace].trace_id
            invariant
                j <= i < group@.len(),
                forall|k: int|
                    0 <= k < group@.len() ==> is_position(traces@, #[trigger] group@[k]),
                ids == trace_ids(traces@, group@),
                forall|k: int| 0 <= k < j ==> #[trigger] ids[k] != ids[i as int],
            decreases i - j,
        {
            j += 1;
        }
        proof {
            let seen = ids.take(i as int);
            measure::lemma_distinct_push(seen, ids[i as int]);
            assert(ids.take(i + 1) =~= seen.push(ids[i as int]));
            if j < i {
                assert(seen[j as int] == ids[i as int]);
            } else if seen.contains(ids[i as int]) {
                let k = choose|k: int| 0 <= k < seen.len() && seen[k] == ids[i as int];
                assert(ids[k] == ids[i as int]);
            }
        }
        if j == i {
            count += 1;
        }
        i += 1;
    }
    assert(ids.take(i as int) =~= ids);
    count
}

fn cross_trace_suggestion(
    event_type: &EventType,
    p50: u64,
    p95: u64,
    p99: u64,
    n: usize,
) -> (r: String)
    ensures
        r@ == cross_trace_hint(*event_type, p50, p95, p99, n as nat),
{
    let mut out = String::new();
    out.append("Cross-trace analysis: p50=");
    rendering::append_one_decimal(&mut out, p50);
    out.append("ms, p95=");
    rendering::append_one_decimal(&mut out, p95);
    out.append("ms, p99=");
    rendering::append_one_decimal(&mut out, p99);
    out.append("ms across ");
    text::append_decimal(&mut out, n as u64);
    out.append(" occurrences. Consider ");
    match event_type {
        EventType::Sql => out.append("adding an index or optimizing query"),
        EventType::HttpOut => out.append("caching or optimizing endpoint"),
    }
    assert(out@ =~= cross_trace_hint(*event_type, p50, p95, p99, n as nat));
    out
}

proof fn lemma_sorted_members(traces: Seq<Trace>, group: Seq<SpanPosition>)
    requires
        forall|i: int| 0 <= i < group.len() ==> is_position(traces, #[trigger] group[i]),
    ensures
        order::ranked(entries(traces, group)).len() == group.len(),
        forall|i: int|
            0 <= i < group.len() ==> is_position(
                traces,
                (#[trigger] order::ranked(entries(traces, group))[i]).at,
            ),
{
    broadcast use vstd::seq_lib::group_to_multiset_ensures;

    let e = entries(traces, group);
    let s = order::ranked(e);
    order::lemma_ranked(e);
    assert forall|i: int| 0 <= i < group.len() implies is_position(traces, (#[trigger] s[i]).at) by {
        assert(s.contains(s[i]));
        assert(e.to_multiset().count(s[i]) > 0);
        assert(e.contains(s[i]));
        let k = choose|k: int| 0 <= k < e.len() && e[k] == s[i];
        assert(is_position(traces, group[k]));
    }
}

/// The finding on a group of slow spans of several traces; `None` if there are too few of them, if
/// they are of a single trace, or if their 99th percentile does not exceed the threshold.
fn build_cross_trace_finding(
    traces: &[Trace],
    group: &Vec<SpanPosition>,
    min_occ: usize,
    threshold_us: u64,
) -> (r: Option<Finding>)
    requires
        forall|i: int| 0 <= i < group@.len() ==> is_position(traces@, #[trigger] group@[i]),
        group@.len() > 0,
    ensures
        ({
            let expected = cross_trace_finding(traces@, group@, min_occ as nat, threshold_us);
            match r {
                Some(f) => expected == Some(f@),
                None => expected is None,
            }
        }),
{
    if group.len() < min_occ {
        return None;
    }
    if count_traces(traces, group) < 2 {
        return None;
    }
    let n = group.len();
    let mut unsorted: Vec<DurationEntry> = Vec::new();
    let mut i: usize = 0;
    while i < n
        invariant
            i <= n,
            n == group@.len(),
            forall|k: int| 0 <= k < group@.len() ==> is_position(traces@, #[trigger] group@[k]),
            unsorted@.len() == i,
            forall|k: int|
                0 <= k < i ==> #[trigger] unsorted@[k] == entries(traces@, group@)[k],
        decreases n - i,
    {
        let p = group[i];
        unsorted.push(
            DurationEntry { duration_us: traces[p.trace].spans[p.span].event.duration_us, at: p },
        );
        i += 1;
    }
    assert(unsorted@ =~= entries(traces@, group@));
    let sorted = order::sort_ranked(unsorted);
    proof {
        lemma_sorted_members(traces@, group@);
    }
    let p50 = sorted[percentile_index(n, 50)].duration_us;
    let p95 = sorted[percentile_index(n, 95)].duration_us;
    let p99 = sorted[percentile_index(n, 99)].duration_us;
    if p99 <= threshold_us {
        return None;
    }
    let worst = sorted[n - 1];
    assert(is_position(traces@, sorted@[n - 1].at));
    let worst_span = &traces[worst.at.trace].spans[worst.at.span];
    let mut stamps: Vec<&str> = Vec::new();
    let mut j: usize = 0;
    while j < n
        invariant
            j <= n,
            n == sorted@.len(),
            forall|k: int| 0 <= k < n ==> is_position(traces@, (#[trigger] sorted@[k]).at),
            stamps@.len() == j,
            forall|k: int|
                0 <= k < j ==> (#[trigger] stamps@[k])@ == entry_timestamps(traces@, sorted@)[k],
        decreases n - j,
    {
        let e = sorted[j];
        stamps.push(traces[e.at.trace].spans[e.at.span].event.timestamp.as_str());
        j += 1;
    }
    assert(stamps@.map_values(|t: &str| t@) =~= entry_timestamps(traces@, sorted@));
    let (window_ms, first_ts, last_ts) = measure::compute_window_and_bounds(stamps.as_slice());
    let first = &traces[group[0].trace].spans[group[0].span];
    let f = Finding {
        finding_type: FindingType::from_event_type_slow(&first.event.event_type),
        severity: severity_of(worst.duration_us, threshold_us),
        trace_id: traces[worst.at.trace].trace_id.clone(),
        service: worst_span.event.service.clone(),
        grouping: event::copy_grouping(&worst_span.event.grouping),
        source_endpoint: worst_span.event.source.endpoint.clone(),
        pattern: Pattern {
            template: first.template.clone(),
            occurrences: n,
            window_ms,
            distinct_params: 0,
            occurrences_by_service: Vec::new(),
        },
        suggestion: cross_trace_suggestion(&first.event.event_type, p50, p95, p99, n),
        first_timestamp: first_ts.to_string(),
        last_timestamp: last_ts.to_string(),
        green_impact: None,
        confidence: Confidence::default(),
        classification_method: None,
        code_location: worst_span.event.code_location(),
        instrumentation_scopes: worst_span.event.instrumentation_scopes.clone(),
        suggested_fix: None,
        signature: String::new(),
    };
    assert(finding::service_counts(f.pattern.occurrences_by_service@) =~= Seq::empty());
    Some(f)
}

/// Detect slow operations across traces by the percentiles of their durations.
///
/// Groups all spans of all traces by kind of operation and template, and reports a template whose
/// 99th percentile exceeds the threshold and whose spans come from two traces at least.
pub fn detect_slow_cross_trace(
    traces: &[Trace],
    threshold_ms: u64,
    min_occurrences: u32,
) -> (r: Vec<Finding>)
    ensures
        finding::finding_views(r@) == cross_trace_findings(
            traces,
            threshold_ms,
            min_occurrences as nat,
        ),
{
    let limit = arith::capped_product(threshold_ms, 1000);
    let classifier = AcrossTraces { traces };
    let positions = list_positions(traces);
    let ghost f = |group: Seq<SpanPosition>|
        cross_trace_finding(traces@, group, min_occurrences as nat, limit);
    let ghost all = grouping::groups(classifier, positions@);
    let groups = grouping::group_items(&classifier, &positions);
    let mut findings: Vec<Finding> = Vec::new();
    let mut k: usize = 0;
    assert(finding::finding_views(findings@) =~= all.take(0).filter_map(f));
    while k < groups.len()
        invariant
            k <= groups@.len(),
            groups@.len() == all.len(),
            f == (|group: Seq<SpanPosition>|
                cross_trace_finding(traces@, group, min_occurrences as nat, limit)),
            forall|i: int|
                0 <= i < positions@.len() ==> is_position(traces@, #[trigger] positions@[i]),
            forall|m: int|
                0 <= m < groups@.len() ==> grouping::at_positions(
                    positions@,
                    (#[trigger] groups@[m])@,
                ) == all[m],
            forall|m: int|
                0 <= m < groups@.len() ==> grouping::ascending_positions(
                    (#[trigger] groups@[m])@,
                    positions@.len(),
                ) && groups@[m]@.len() > 0,
            finding::finding_views(findings@) == all.take(k as int).filter_map(f),
        decreases groups@.len() - k,
    {
        let indices = &groups[k];
        let ghost before = findings@;
        let mut group: Vec<SpanPosition> = Vec::new();
        let mut i: usize = 0;
        while i < indices.len()
            invariant
                i <= indices@.len(),
                grouping::ascending_positions(indices@, positions@.len()),
                forall|q: int|
                    0 <= q < positions@.len() ==> is_position(traces@, #[trigger] positions@[q]),
                group@.len() == i,
                forall|q: int|
                    0 <= q < i ==> #[trigger] group@[q] == positions@[indices@[q] as int],
            decreases indices@.len() - i,
        {
            group.push(positions[indices[i]]);
            i += 1;
        }
        proof {
            assert(group@ =~= grouping::at_positions(positions@, indices@));
            assert(all.take(k + 1).drop_last() =~= all.take(k as int));
            assert(all.take(k + 1).last() == group@);
        }
        if let Some(finding) = build_cross_trace_finding(
            traces,
            &group,
            min_occurrences as usize,
            limit,
        ) {
            findings.push(finding);
            assert(finding::finding_views(findings@) =~= finding::finding_views(before).push(
                finding@,
            ));
        }
        assert(finding::finding_views(findings@) =~= all.take(k + 1).filter_map(f));
        k += 1;
    }
    assert(all.take(k as int) =~= all);
    findings
}

proof fn lemma_spans_in(traces: Seq<Trace>, t: int, m: nat, kind: EventType, template: Seq<char>)
    requires
        0 <= t < traces.len(),
        traces.len() <= usize::MAX,
        m <= traces[t].spans@.len() <= usize::MAX,
    ensures
        positions_in(t, m).filter(
            |p: SpanPosition|
                span_at(traces, p).event.event_type == kind && span_at(traces, p).template@ == template,
        ).map_values(|p: SpanPosition| span_at(traces, p)) == traces[t].spans@.take(
            m as int,
        ).filter(|s: NormalizedEvent| s.event.event_type == kind && s.template@ == template),
    decreases m,
{
    reveal(Seq::filter);
    let inside = |p: SpanPosition|
        span_at(traces, p).event.event_type == kind && span_at(traces, p).template@ == template;
    let span = |p: SpanPosition| span_at(traces, p);
    let test = |s: NormalizedEvent| s.event.event_type == kind && s.template@ == template;
    let all = positions_in(t, m);
    let spans = traces[t].spans@;
    if m == 0 {
        assert(all.filter(inside).map_values(span) =~= spans.take(0).filter(test));
    } else {
        lemma_spans_in(traces, t, (m - 1) as nat, kind, template);
        assert(all.drop_last() =~= positions_in(t, (m - 1) as nat));
        assert(spans.take(m as int).drop_last() =~= spans.take(m - 1));
        assert(span_at(traces, all.last()) == spans[m - 1]);
        assert(all.filter(inside).map_values(span) =~= spans.take(m as int).filter(test));
    }
}

proof fn lemma_spans_across(traces: Seq<Trace>, n: nat, kind: EventType, template: Seq<char>)
    requires
        n <= traces.len() <= usize::MAX,
        forall|t: int| 0 <= t < traces.len() ==> (#[trigger] traces[t]).spans@.len() <= usize::MAX,
    ensures
        all_positions(traces, n).filter(
            |p: SpanPosition|
                span_at(traces, p).event.event_type == kind && span_at(traces, p).template@ == template,
        ).map_values(|p: SpanPosition| span_at(traces, p)) == traces.take(n as int).fold_left(
            Seq::<NormalizedEvent>::empty(),
            |all: Seq<NormalizedEvent>, t: Trace|
                all + t.spans@.filter(
                    |s: NormalizedEvent| s.event.event_type == kind && s.template@ == template,
                ),
        ),
    decreases n,
{
    reveal(Seq::filter);
    let inside = |p: SpanPosition|
        span_at(traces, p).event.event_type == kind && span_at(traces, p).template@ == template;
    let span = |p: SpanPosition| span_at(traces, p);
    let test = |s: NormalizedEvent| s.event.event_type == kind && s.template@ == template;
    let gather = |all: Seq<NormalizedEvent>, t: Trace|
        all + t.spans@.filter(
            |s: NormalizedEvent| s.event.event_type == kind && s.template@ == template,
        );
    if n == 0 {
        assert(all_positions(traces, 0).filter(inside).map_values(span)
            =~= Seq::<NormalizedEvent>::empty());
        assert(traces.take(0).fold_left(Seq::<NormalizedEvent>::empty(), gather) =~= Seq::<
            NormalizedEvent,
        >::empty());
    } else {
        let front = all_positions(traces, (n - 1) as nat);
        let t = n - 1;
        let m = traces[t].spans@.len();
        let back = positions_in(t, m);
        lemma_spans_across(traces, (n - 1) as nat, kind, template);
        lemma_spans_in(traces, t, m, kind, template);
        permutation::lemma_filter_add(front, back, inside);
        assert(traces.take(n as int).drop_last() =~= traces.take(n - 1));
        assert(traces[t].spans@.take(m as int) =~= traces[t].spans@);
        assert((front.filter(inside) + back.filter(inside)).map_values(span) =~= front.filter(
            inside,
        ).map_values(span) + back.filter(inside).map_values(span));
        assert(gather(
            traces.take(n - 1).fold_left(Seq::<NormalizedEvent>::empty(), gather),
            traces[t],
        ) =~= front.filter(inside).map_values(span) + back.filter(inside).map_values(span));
    }
}

/// The spans of an operation over all traces.
proof fn lemma_spans_of(traces: &[Trace], kind: EventType, template: Seq<char>)
    ensures
        positions_of(traces, (kind, template)).map_values(|p: SpanPosition| span_at(traces@, p))
            == traces@.fold_left(
            Seq::<NormalizedEvent>::empty(),
            |all: Seq<NormalizedEvent>, t: Trace|
                all + t.spans@.filter(
                    |s: NormalizedEvent| s.event.event_type == kind && s.template@ == template,
                ),
        ),
        forall|i: int|
            0 <= i < positions_of(traces, (kind, template)).len() ==> is_position(
                traces@,
                #[trigger] positions_of(traces, (kind, template))[i],
            ) && span_at(traces@, positions_of(traces, (kind, template))[i]).event.event_type == kind && span_at(
                traces@,
                positions_of(traces, (kind, template))[i],
            ).template@ == template,
{
    let g = AcrossTraces { traces };
    let all = all_positions(traces@, traces@.len());
    let inside = |p: SpanPosition|
        span_at(traces@, p).event.event_type == kind && span_at(traces@, p).template@ == template;
    assert(traces.len() == traces@.len());
    assert forall|t: int| 0 <= t < traces@.len() implies (#[trigger] traces@[t]).spans@.len()
        <= usize::MAX by {
        assert(traces@[t].spans.len() == traces@[t].spans@.len());
    }
    lemma_spans_across(traces@, traces@.len(), kind, template);
    assert(traces@.take(traces@.len() as int) =~= traces@);
    permutation::lemma_filter_same(all, inside, grouping::in_class(g, (kind, template)));
    lemma_positions_valid(traces@, traces@.len());
    assert forall|i: int| 0 <= i < positions_of(traces, (kind, template)).len() implies is_position(
        traces@,
        #[trigger] positions_of(traces, (kind, template))[i],
    ) && inside(positions_of(traces, (kind, template))[i]) by {
        let p = positions_of(traces, (kind, template))[i];
        assert(positions_of(traces, (kind, template)).contains(p));
        permutation::lemma_filter_contains(all, inside, p);
        let m = choose|m: int| 0 <= m < all.len() && all[m] == p;
        assert(is_position(traces@, all[m]));
    }
}

proof fn lemma_positions_valid(traces: Seq<Trace>, n: nat)
    requires
        n <= traces.len() <= usize::MAX,
        forall|t: int| 0 <= t < traces.len() ==> (#[trigger] traces[t]).spans@.len() <= usize::MAX,
    ensures
        forall|i: int|
            0 <= i < all_positions(traces, n).len() ==> is_position(
                traces,
                #[trigger] all_positions(traces, n)[i],
            ),
    decreases n,
{
    if n > 0 {
        lemma_positions_valid(traces, (n - 1) as nat);
        let front = all_positions(traces, (n - 1) as nat);
        let all = all_positions(traces, n);
        assert forall|i: int| 0 <= i < all.len() implies is_position(traces, #[trigger] all[i]) by {
            if i < front.len() {
                assert(all[i] == front[i]);
            } else {
                assert(all[i] == positions_in(n - 1, traces[n - 1].spans@.len())[i
                    - front.len()]);
            }
        }
    }
}

proof fn lemma_rank_counts(s: Seq<DurationEntry>, at: int, v: u64)
    requires
        0 <= at < s.len(),
        order::is_ranked(s),
        s[at].duration_us == v,
    ensures
        permutation::count_if(s, |e: DurationEntry| e.duration_us < v) <= at,
        permutation::count_if(s, |e: DurationEntry| e.duration_us <= v) >= at + 1,
{
    let below = |e: DurationEntry| e.duration_us < v;
    let upto = |e: DurationEntry| e.duration_us <= v;
    let front = s.take(at);
    let back = s.skip(at);
    assert(s =~= front + back);
    permutation::lemma_count_add(front, back, below);
    permutation::lemma_count_bound(front, below);
    assert forall|i: int| 0 <= i < back.len() implies !below(#[trigger] back[i]) by {
        assert(back[i] == s[at + i]);
        if i > 0 {
            assert(s[at].rank_le(&s[at + i]));
        }
    }
    permutation::lemma_count_none(back, below);
    let head = s.take(at + 1);
    let tail = s.skip(at + 1);
    assert(s =~= head + tail);
    permutation::lemma_count_add(head, tail, upto);
    assert forall|i: int| 0 <= i < head.len() implies upto(#[trigger] head[i]) by {
        assert(head[i] == s[i]);
        if i < at {
            assert(s[i].rank_le(&s[at]));
        }
    }
    permutation::lemma_count_all(head, upto);
}

proof fn lemma_count_mapped<A, B>(s: Seq<A>, f: spec_fn(A) -> B, p: spec_fn(B) -> bool)
    ensures
        permutation::count_if(s.map_values(f), p) == permutation::count_if(s, |a: A| p(f(a))),
    decreases s.len(),
{
    if s.len() > 0 {
        lemma_count_mapped(s.drop_last(), f, p);
        assert(s.map_values(f).drop_last() =~= s.drop_last().map_values(f));
    }
}

/// Durations at a nearest rank: less than the `p`-th part of a hundred of them lie below, and that
/// part or more do not lie above. The spans are those at some positions.
pub proof fn law_percentile_has_its_share_below(
    traces: Seq<Trace>,
    group: Seq<SpanPosition>,
    p: nat,
)
    requires
        group.len() > 0,
        0 < p <= 100,
    ensures
        ({
            let v = percentile(traces, group, p);
            let spans = group.map_values(|at: SpanPosition| span_at(traces, at));
            let n = spans.len();
            &&& 100 * spans.filter(|s: NormalizedEvent| s.event.duration_us < v).len() < p * n
            &&& p * n <= 100 * spans.filter(
                |s: NormalizedEvent| s.event.duration_us <= v,
            ).len()
            &&& exists|i: int| 0 <= i < n && (#[trigger] spans[i]).event.duration_us == v
        }),
{
    let all = entries(traces, group);
    let sorted = order::ranked(all);
    order::lemma_ranked(all);
    let n = group.len();
    let at = percentile_position(n, p) as int;
    let v = percentile(traces, group, p);
    let share = p * n;
    assert(0 < share <= 100 * n) by (nonlinear_arith)
        requires
            0 < p <= 100,
            n > 0,
            share == p * n,
    ;
    assert(at == (share + 99) / 100 - 1);
    lemma_rank_counts(sorted, at, v);
    let below = |e: DurationEntry| e.duration_us < v;
    let upto = |e: DurationEntry| e.duration_us <= v;
    permutation::lemma_count_permutation(sorted, all, below);
    permutation::lemma_count_permutation(sorted, all, upto);
    let entry = |p: SpanPosition|
        DurationEntry { duration_us: span_at(traces, p).event.duration_us, at: p };
    let span = |at: SpanPosition| span_at(traces, at);
    let spans = group.map_values(span);
    assert(all =~= group.map_values(entry));
    lemma_count_mapped(group, entry, below);
    lemma_count_mapped(group, entry, upto);
    let span_below = |s: NormalizedEvent| s.event.duration_us < v;
    let span_upto = |s: NormalizedEvent| s.event.duration_us <= v;
    lemma_count_mapped(group, span, span_below);
    lemma_count_mapped(group, span, span_upto);
    permutation::lemma_count_same(
        group,
        |p: SpanPosition| below(entry(p)),
        |p: SpanPosition| span_below(span(p)),
    );
    permutation::lemma_count_same(
        group,
        |p: SpanPosition| upto(entry(p)),
        |p: SpanPosition| span_upto(span(p)),
    );
    permutation::lemma_count_filter(spans, span_below);
    permutation::lemma_count_filter(spans, span_upto);
    permutation::lemma_contains_permutation(sorted, all, sorted[at]);
    assert(sorted.contains(sorted[at]));
    let i = choose|i: int| 0 <= i < all.len() && all[i] == sorted[at];
    assert(spans[i].event.duration_us == v);
}

/// An operation, given by its kind and template, is a slow finding across traces if and only if
/// enough spans carry it, in traces of which two have different ids, and fewer than 99 in a hundred
/// of all of them, fast ones among them, keep to the threshold. The finding counts all of them and
/// is told by one of the slowest.
pub proof fn law_slow_operations_across_traces(
    traces: &[Trace],
    threshold_ms: u64,
    min_occurrences: nat,
    kind: EventType,
    template: Seq<char>,
)
    ensures
        ({
            let found = cross_trace_findings(traces, threshold_ms, min_occurrences);
            let calls = traces@.fold_left(
                Seq::<NormalizedEvent>::empty(),
                |all: Seq<NormalizedEvent>, t: Trace|
                    all + t.spans@.filter(
                        |s: NormalizedEvent| s.event.event_type == kind && s.template@ == template,
                    ),
            );
            let n = calls.len();
            let fast = calls.filter(
                |s: NormalizedEvent| s.event.duration_us <= 1000 * threshold_ms,
            ).len();
            let apart = exists|a: int, b: int, i: int, j: int|
                0 <= a < traces@.len() && 0 <= b < traces@.len() && 0 <= i
                    < traces@[a].spans@.len() && 0 <= j < traces@[b].spans@.len()
                    && traces@[a].trace_id@ != traces@[b].trace_id@ && (
                #[trigger] traces@[a].spans@[i]).event.event_type == kind
                    && traces@[a].spans@[i].template@ == template && (
                #[trigger] traces@[b].spans@[j]).event.event_type == kind
                    && traces@[b].spans@[j].template@ == template;
            let reported = n > 0 && n >= min_occurrences && apart && 100 * fast < 99 * n;
            let finding_type = match kind {
                EventType::Sql => FindingType::SlowSql,
                EventType::HttpOut => FindingType::SlowHttp,
            };
            &&& reported <==> exists|f: FindingView| #[trigger]
                found.contains(f) && f.finding_type == finding_type && f.pattern.template
                    == template
            &&& forall|f: FindingView| #[trigger]
                found.contains(f) && f.finding_type == finding_type && f.pattern.template
                    == template ==> {
                    &&& f.pattern.occurrences == n
                    &&& f.pattern.distinct_params == 0
                    &&& f.severity == (if exists|i: int|
                        0 <= i < n && (#[trigger] calls[i]).event.duration_us > 5000
                            * threshold_ms {
                        Severity::Critical
                    } else {
                        Severity::Warning
                    })
                    &&& exists|a: int, i: int|
                        0 <= a < traces@.len() && 0 <= i < traces@[a].spans@.len() && f.trace_id
                            == traces@[a].trace_id@ && (
                        #[trigger] traces@[a].spans@[i]).event.event_type == kind
                            && traces@[a].spans@[i].template@ == template && f.service
                            == traces@[a].spans@[i].event.service@ && f.source_endpoint
                            == traces@[a].spans@[i].event.source.endpoint@ && f.code_location
                            == traces@[a].spans@[i].event.location() && (forall|m: int|
                            0 <= m < n ==> (#[trigger] calls[m]).event.duration_us
                                <= traces@[a].spans@[i].event.duration_us)
                }
        }),
{
    let k = (kind, template);
    let group = positions_of(traces, k);
    let limit = threshold_us(threshold_ms);
    lemma_spans_of(traces, kind, template);
    lemma_traces_apart(traces, k);
    lemma_found_of_class(traces, threshold_ms, min_occurrences, k);
    let made = cross_trace_finding(traces@, group, min_occurrences, limit);
    if group.len() > 0 {
        lemma_few_fast(traces@, group, threshold_ms);
        lemma_slowest(traces@, group, threshold_ms);
        assert(is_position(traces@, group[0]));
        let worst = order::ranked(entries(traces@, group))[group.len() - 1];
        let w = choose|w: int| 0 <= w < group.len() && group[w] == worst.at;
        assert(is_position(traces@, group[w]));
        assert(traces@[worst.at.trace as int].spans@[worst.at.span as int].event.event_type == kind);
        if made is Some {
            assert(cross_trace_findings(traces, threshold_ms, min_occurrences).contains(made->0));
        }
    }
}

proof fn lemma_found_of_class(
    traces: &[Trace],
    threshold_ms: u64,
    min_occurrences: nat,
    k: (EventType, Seq<char>),
)
    ensures
        forall|f: FindingView|
            #![trigger cross_trace_findings(traces, threshold_ms, min_occurrences).contains(f)]
            (cross_trace_findings(traces, threshold_ms, min_occurrences).contains(f)
                && f.finding_type == FindingType::slow(k.0) && f.pattern.template == k.1) <==> (
            positions_of(traces, k).len() > 0 && cross_trace_finding(
                traces@,
                positions_of(traces, k),
                min_occurrences,
                threshold_us(threshold_ms),
            ) == Some(f)),
{
    let g = AcrossTraces { traces };
    let every = all_positions(traces@, traces@.len());
    let group = positions_of(traces, k);
    let limit = threshold_us(threshold_ms);
    let make = |group: Seq<SpanPosition>|
        cross_trace_finding(traces@, group, min_occurrences, limit);
    let found = cross_trace_findings(traces, threshold_ms, min_occurrences);
    lemma_spans_of(traces, k.0, k.1);
    assert forall|f: FindingView|
        #![trigger found.contains(f)]
        (found.contains(f) && f.finding_type == FindingType::slow(k.0) && f.pattern.template
            == k.1) <==> (group.len() > 0 && make(group) == Some(f)) by {
        grouping::lemma_made_of_classes(g, every, make, f);
        if group.len() > 0 && make(group) == Some(f) {
            assert(is_position(traces@, group[0]));
        }
        if found.contains(f) {
            let m = choose|m: (EventType, Seq<char>)|
                #![trigger grouping::class_members(g, every, m)]
                grouping::class_members(g, every, m).len() > 0 && make(
                    grouping::class_members(g, every, m),
                ) == Some(f);
            grouping::lemma_class_members(g, every, m);
            assert(g.key(grouping::class_members(g, every, m)[0]) == m);
        }
    }
}

proof fn lemma_few_fast(traces: Seq<Trace>, group: Seq<SpanPosition>, threshold_ms: u64)
    requires
        group.len() > 0,
    ensures
        ({
            let calls = group.map_values(|p: SpanPosition| span_at(traces, p));
            percentile(traces, group, 99) > threshold_us(threshold_ms) <==> 100 * calls.filter(
                |s: NormalizedEvent| s.event.duration_us <= 1000 * threshold_ms,
            ).len() < 99 * calls.len()
        }),
{
    let calls = group.map_values(|p: SpanPosition| span_at(traces, p));
    law_percentile_has_its_share_below(traces, group, 99);
    let p99 = percentile(traces, group, 99);
    let keeps = |s: NormalizedEvent| s.event.duration_us <= 1000 * threshold_ms;
    let below = |s: NormalizedEvent| s.event.duration_us < p99;
    let upto = |s: NormalizedEvent| s.event.duration_us <= p99;
    permutation::lemma_count_filter(calls, keeps);
    permutation::lemma_count_filter(calls, below);
    permutation::lemma_count_filter(calls, upto);
    if p99 > 1000 * threshold_ms {
        permutation::lemma_count_implies(calls, keeps, below);
    } else {
        permutation::lemma_count_implies(calls, upto, keeps);
    }
}

proof fn lemma_traces_apart(traces: &[Trace], k: (EventType, Seq<char>))
    ensures
        measure::distinct(trace_ids(traces@, positions_of(traces, k))) >= 2 <==> (exists|a: int, b: int, i: int, j: int|
        0 <= a < traces@.len() && 0 <= b < traces@.len() && 0 <= i < traces@[a].spans@.len() && 0
            <= j < traces@[b].spans@.len() && traces@[a].trace_id@ != traces@[b].trace_id@ && (
        #[trigger] traces@[a].spans@[i]).event.event_type == k.0
            && traces@[a].spans@[i].template@ == k.1 && (
        #[trigger] traces@[b].spans@[j]).event.event_type == k.0
            && traces@[b].spans@[j].template@ == k.1),
{
    let group = positions_of(traces, k);
    let ids = trace_ids(traces@, group);
    assert(traces.len() == traces@.len());
    lemma_spans_of(traces, k.0, k.1);
    lemma_two_ids(ids);
    if measure::distinct(ids) >= 2 {
        let (x, y) = choose|x: int, y: int|
            0 <= x < ids.len() && 0 <= y < ids.len() && #[trigger] ids[x] != #[trigger] ids[y];
        let p = group[x];
        let q = group[y];
        assert(is_position(traces@, p) && is_position(traces@, q));
        assert(traces@[p.trace as int].spans@[p.span as int].event.event_type == k.0);
        assert(traces@[q.trace as int].spans@[q.span as int].event.event_type == k.0);
    }
    if exists|a: int, b: int, i: int, j: int|
        0 <= a < traces@.len() && 0 <= b < traces@.len() && 0 <= i < traces@[a].spans@.len() && 0
            <= j < traces@[b].spans@.len() && traces@[a].trace_id@ != traces@[b].trace_id@ && (
        #[trigger] traces@[a].spans@[i]).event.event_type == k.0
            && traces@[a].spans@[i].template@ == k.1 && (
        #[trigger] traces@[b].spans@[j]).event.event_type == k.0
            && traces@[b].spans@[j].template@ == k.1 {
        let (a, b, i, j) = choose|a: int, b: int, i: int, j: int|
                0 <= a < traces@.len() && 0 <= b < traces@.len() && 0 <= i < traces@[a].spans@.len() && 0
            <= j < traces@[b].spans@.len() && traces@[a].trace_id@ != traces@[b].trace_id@ && (
        #[trigger] traces@[a].spans@[i]).event.event_type == k.0
            && traces@[a].spans@[i].template@ == k.1 && (
        #[trigger] traces@[b].spans@[j]).event.event_type == k.0
            && traces@[b].spans@[j].template@ == k.1;
        let x = lemma_position_listed(traces, k, a, i);
        let y = lemma_position_listed(traces, k, b, j);
        assert(ids[x] != ids[y]);
    }
}

/// Two values differ if and only if there is more than one.
pub proof fn lemma_two_ids(ids: Seq<Seq<char>>)
    ensures
        measure::distinct(ids) >= 2 <==> exists|x: int, y: int|
            0 <= x < ids.len() && 0 <= y < ids.len() && #[trigger] ids[x] != #[trigger] ids[y],
    decreases ids.len(),
{
    measure::lemma_distinct_bound(ids);
    if ids.len() > 0 {
        let rest = ids.drop_last();
        lemma_two_ids(rest);
        measure::lemma_distinct_push(rest, ids.last());
        measure::lemma_distinct_bound(rest);
        assert(ids =~= rest.push(ids.last()));
        assert(ids[ids.len() - 1] == ids.last());
        if measure::distinct(rest) >= 2 {
            let (x, y) = choose|x: int, y: int|
                0 <= x < rest.len() && 0 <= y < rest.len() && #[trigger] rest[x]
                    != #[trigger] rest[y];
            assert(ids[x] != ids[y]);
        } else if measure::distinct(ids) >= 2 {
            assert(rest.len() > 0);
            assert(ids[0] == rest[0]);
            if rest[0] == ids.last() {
                assert(rest.contains(ids.last()));
            }
            assert(ids[0] != ids[ids.len() - 1]);
        }
        if exists|x: int, y: int|
            0 <= x < ids.len() && 0 <= y < ids.len() && #[trigger] ids[x] != #[trigger] ids[y] {
            let (x, y) = choose|x: int, y: int|
                0 <= x < ids.len() && 0 <= y < ids.len() && #[trigger] ids[x] != #[trigger] ids[y];
            if x < rest.len() && y < rest.len() {
                assert(rest[x] != rest[y]);
            } else if measure::distinct(ids) < 2 {
                assert(rest.contains(ids.last()));
                let z = choose|z: int| 0 <= z < rest.len() && rest[z] == ids.last();
                let w = if x < rest.len() {
                    x
                } else {
                    y
                };
                assert(rest[w] != rest[z]);
            }
        }
    }
}

proof fn lemma_position_in_list(traces: Seq<Trace>, n: nat, a: int, i: int) -> (m: int)
    requires
        n <= traces.len() <= usize::MAX,
        0 <= a < n,
        0 <= i < traces[a].spans@.len() <= usize::MAX,
    ensures
        0 <= m < all_positions(traces, n).len(),
        all_positions(traces, n)[m] == (SpanPosition { trace: a as usize, span: i as usize }),
    decreases n,
{
    let front = all_positions(traces, (n - 1) as nat);
    if a == n - 1 {
        front.len() + i
    } else {
        lemma_position_in_list(traces, (n - 1) as nat, a, i)
    }
}

proof fn lemma_position_listed(traces: &[Trace], k: (EventType, Seq<char>), a: int, i: int) -> (x:
    int)
    requires
        0 <= a < traces@.len(),
        0 <= i < traces@[a].spans@.len(),
        traces@[a].spans@[i].event.event_type == k.0,
        traces@[a].spans@[i].template@ == k.1,
    ensures
        0 <= x < positions_of(traces, k).len(),
        positions_of(traces, k)[x] == (SpanPosition { trace: a as usize, span: i as usize }),
{
    let g = AcrossTraces { traces };
    let every = all_positions(traces@, traces@.len());
    assert(traces.len() == traces@.len());
    assert(traces@[a].spans.len() == traces@[a].spans@.len());
    let m = lemma_position_in_list(traces@, traces@.len(), a, i);
    let p = SpanPosition { trace: a as usize, span: i as usize };
    assert(every.contains(p)) by {
        assert(every[m] == p);
    }
    permutation::lemma_filter_contains(every, grouping::in_class(g, k), p);
    choose|x: int| 0 <= x < positions_of(traces, k).len() && positions_of(traces, k)[x] == p
}

proof fn lemma_slowest(traces: Seq<Trace>, group: Seq<SpanPosition>, threshold_ms: u64)
    requires
        group.len() > 0,
        forall|i: int| 0 <= i < group.len() ==> is_position(traces, #[trigger] group[i]),
    ensures
        ({
            let worst = order::ranked(entries(traces, group))[group.len() - 1];
            let calls = group.map_values(|p: SpanPosition| span_at(traces, p));
            &&& group.contains(worst.at)
            &&& worst.duration_us == span_at(traces, worst.at).event.duration_us
            &&& forall|m: int|
                0 <= m < calls.len() ==> (#[trigger] calls[m]).event.duration_us
                    <= worst.duration_us
            &&& duration_severity(worst.duration_us, threshold_us(threshold_ms)) == (if exists|
                i: int,
            |
                0 <= i < calls.len() && (#[trigger] calls[i]).event.duration_us > 5000
                    * threshold_ms {
                Severity::Critical
            } else {
                Severity::Warning
            })
        }),
{
    let all = entries(traces, group);
    let sorted = order::ranked(all);
    order::lemma_ranked(all);
    let n = group.len() as int;
    let worst = sorted[n - 1];
    let calls = group.map_values(|p: SpanPosition| span_at(traces, p));
    permutation::lemma_contains_permutation(sorted, all, worst);
    assert(sorted.contains(worst));
    let w = choose|w: int| 0 <= w < all.len() && all[w] == worst;
    assert(group[w] == worst.at);
    assert(calls[w].event.duration_us == worst.duration_us);
    assert forall|m: int| 0 <= m < calls.len() implies (#[trigger] calls[m]).event.duration_us
        <= worst.duration_us by {
        assert(all.contains(all[m]));
        permutation::lemma_contains_permutation(all, sorted, all[m]);
        let x = choose|x: int| 0 <= x < sorted.len() && sorted[x] == all[m];
        if x < n - 1 {
            assert(sorted[x].rank_le(&sorted[n - 1]));
        }
    }
}

/// A finding across traces tells the figures of all spans of its operation: the 50th, 95th and 99th
/// percentile of their durations (fewer than that share of them are shorter, that share or more are
/// not longer), their number, and the earliest and the latest of their timestamps.
pub proof fn law_cross_trace_finding_tells_the_figures(
    traces: &[Trace],
    threshold_ms: u64,
    min_occurrences: nat,
    kind: EventType,
    template: Seq<char>,
    f: FindingView,
) -> (p: (u64, u64, u64))
    requires
        cross_trace_findings(traces, threshold_ms, min_occurrences).contains(f),
        f.finding_type == FindingType::slow(kind),
        f.pattern.template == template,
    ensures
        ({
            let calls = traces@.fold_left(
                Seq::<NormalizedEvent>::empty(),
                |all: Seq<NormalizedEvent>, t: Trace|
                    all + t.spans@.filter(
                        |s: NormalizedEvent| s.event.event_type == kind && s.template@ == template,
                    ),
            );
            let n = calls.len();
            let start = time::timestamp_ms(f.first_timestamp);
            let end = time::timestamp_ms(f.last_timestamp);
            &&& 100 * calls.filter(|s: NormalizedEvent| s.event.duration_us < p.0).len() < 50 * n
            &&& 50 * n <= 100 * calls.filter(|s: NormalizedEvent| s.event.duration_us <= p.0).len()
            &&& 100 * calls.filter(|s: NormalizedEvent| s.event.duration_us < p.1).len() < 95 * n
            &&& 95 * n <= 100 * calls.filter(|s: NormalizedEvent| s.event.duration_us <= p.1).len()
            &&& 100 * calls.filter(|s: NormalizedEvent| s.event.duration_us < p.2).len() < 99 * n
            &&& 99 * n <= 100 * calls.filter(|s: NormalizedEvent| s.event.duration_us <= p.2).len()
            &&& f.suggestion == "Cross-trace analysis: p50="@ + rendering::one_decimal(p.0 as nat)
                + "ms, p95="@ + rendering::one_decimal(p.1 as nat) + "ms, p99="@
                + rendering::one_decimal(p.2 as nat) + "ms across "@ + text::decimal(n)
                + " occurrences. Consider "@ + (match kind {
                EventType::Sql => "adding an index or optimizing query"@,
                EventType::HttpOut => "caching or optimizing endpoint"@,
            })
            &&& forall|i: int|
                0 <= i < n ==> !text::text_lt(
                    (#[trigger] calls[i]).event.timestamp@,
                    f.first_timestamp,
                ) && !text::text_lt(f.last_timestamp, calls[i].event.timestamp@)
            &&& exists|i: int|
                0 <= i < n && (#[trigger] calls[i]).event.timestamp@ == f.first_timestamp
            &&& exists|i: int|
                0 <= i < n && (#[trigger] calls[i]).event.timestamp@ == f.last_timestamp
            &&& f.pattern.window_ms == (if n >= 2 && start is Some && end is Some && end->0
                > start->0 {
                end->0 - start->0
            } else {
                0
            })
            &&& f.confidence is CiBatch
            &&& f.green_impact is None
            &&& f.classification_method is None
            &&& f.suggested_fix is None
            &&& f.signature.len() == 0
            &&& f.pattern.occurrences_by_service.len() == 0
        }),
{
    let k = (kind, template);
    let group = positions_of(traces, k);
    lemma_spans_of(traces, kind, template);
    lemma_found_of_class(traces, threshold_ms, min_occurrences, k);
    assert(group.len() > 0);
    assert(is_position(traces@, group[0]));
    law_percentile_has_its_share_below(traces@, group, 50);
    law_percentile_has_its_share_below(traces@, group, 95);
    law_percentile_has_its_share_below(traces@, group, 99);
    let span = |p: SpanPosition| span_at(traces@, p);
    let calls = group.map_values(span);
    let sorted = order::ranked(entries(traces@, group));
    let ts = entry_timestamps(traces@, sorted);
    lemma_times_of(traces@, group);
    (
        percentile(traces@, group, 50),
        percentile(traces@, group, 95),
        percentile(traces@, group, 99),
    )
}

proof fn lemma_times_of(traces: Seq<Trace>, group: Seq<SpanPosition>)
    requires
        group.len() > 0,
    ensures
        ({
            let calls = group.map_values(|p: SpanPosition| span_at(traces, p));
            let ts = entry_timestamps(traces, order::ranked(entries(traces, group)));
            let (a, b) = (measure::earliest(ts), measure::latest(ts));
            &&& ts.len() == calls.len()
            &&& forall|i: int|
                0 <= i < calls.len() ==> !text::text_lt(
                    (#[trigger] calls[i]).event.timestamp@,
                    a,
                ) && !text::text_lt(b, calls[i].event.timestamp@)
            &&& exists|i: int| 0 <= i < calls.len() && (#[trigger] calls[i]).event.timestamp@ == a
            &&& exists|i: int| 0 <= i < calls.len() && (#[trigger] calls[i]).event.timestamp@ == b
        }),
{
    let calls = group.map_values(|p: SpanPosition| span_at(traces, p));
    let all = entries(traces, group);
    let sorted = order::ranked(all);
    let ts = entry_timestamps(traces, sorted);
    let (a, b) = (measure::earliest(ts), measure::latest(ts));
    order::lemma_ranked(all);
    measure::lemma_earliest(ts);
    measure::lemma_latest(ts);
    assert forall|i: int| 0 <= i < calls.len() implies !text::text_lt(
        (#[trigger] calls[i]).event.timestamp@,
        a,
    ) && !text::text_lt(b, calls[i].event.timestamp@) by {
        assert(all[i].at == group[i]);
        assert(all.contains(all[i]));
        permutation::lemma_contains_permutation(all, sorted, all[i]);
        let m = choose|m: int| 0 <= m < sorted.len() && sorted[m] == all[i];
        assert(ts[m] == calls[i].event.timestamp@);
    }
    let x = choose|x: int| 0 <= x < ts.len() && ts[x] == a;
    let y = choose|y: int| 0 <= y < ts.len() && ts[y] == b;
    assert(sorted.contains(sorted[x]) && sorted.contains(sorted[y]));
    permutation::lemma_contains_permutation(sorted, all, sorted[x]);
    permutation::lemma_contains_permutation(sorted, all, sorted[y]);
    let i = choose|i: int| 0 <= i < all.len() && all[i] == sorted[x];
    let j = choose|j: int| 0 <= j < all.len() && all[j] == sorted[y];
    assert(calls[i].event.timestamp@ == a);
    assert(calls[j].event.timestamp@ == b);
}

/// The position of a percentile is the least one at which the share of the values up to it reaches
/// it, within the values there are.
pub proof fn law_percentile_position_is_the_nearest_rank(n: nat, p: nat)
    requires
        n > 0,
    ensures
        percentile_position(n, p) < n,
        0 < p <= 100 ==> 100 * percentile_position(n, p) < p * n <= 100 * (percentile_position(n, p)
            + 1),
        p == 0 ==> percentile_position(n, p) == 0,
        p >= 100 ==> percentile_position(n, p) == n - 1,
{
    let share = p * n;
    assert(0 < p <= 100 ==> 0 < share <= 100 * n) by (nonlinear_arith)
        requires
            n > 0,
            share == p * n,
    ;
    assert(p == 0 ==> share == 0) by (nonlinear_arith)
        requires
            share == p * n,
    ;
    assert(p >= 100 ==> share >= 100 * n) by (nonlinear_arith)
        requires
            share == p * n,
    ;
}

/// Whether a span stands before another one, by trace and by place in the trace.
spec fn stands_before(p: SpanPosition, q: SpanPosition) -> bool {
    p.trace < q.trace || (p.trace == q.trace && p.span < q.span)
}

proof fn lemma_positions_ascend(traces: Seq<Trace>, n: nat)
    requires
        n <= traces.len() <= usize::MAX,
        forall|t: int| 0 <= t < traces.len() ==> (#[trigger] traces[t]).spans@.len() <= usize::MAX,
    ensures
        permutation::in_order(
            all_positions(traces, n),
            |p: SpanPosition, q: SpanPosition| stands_before(p, q),
        ),
        forall|i: int|
            0 <= i < all_positions(traces, n).len() ==> (
            #[trigger] all_positions(traces, n)[i]).trace < n,
    decreases n,
{
    if n > 0 {
        lemma_positions_ascend(traces, (n - 1) as nat);
        let front = all_positions(traces, (n - 1) as nat);
        let back = positions_in(n - 1, traces[n - 1].spans@.len());
        let all = all_positions(traces, n);
        assert forall|i: int| 0 <= i < all.len() implies (#[trigger] all[i]).trace < n by {
            if i < front.len() {
                assert(all[i] == front[i]);
            } else {
                assert(all[i] == back[i - front.len()]);
            }
        }
        assert forall|i: int, j: int|
            #![trigger all[i], all[j]]
            0 <= i < j < all.len() implies stands_before(all[i], all[j]) by {
            if j < front.len() {
                assert(all[i] == front[i] && all[j] == front[j]);
            } else {
                assert(all[j] == back[j - front.len()]);
                if i < front.len() {
                    assert(all[i] == front[i]);
                } else {
                    assert(all[i] == back[i - front.len()]);
                }
            }
        }
    }
}

proof fn lemma_last_of_the_slowest(
    traces: &[Trace],
    k: (EventType, Seq<char>),
    b: int,
    j: int,
)
    requires
        0 <= b < traces@.len(),
        0 <= j < traces@[b].spans@.len(),
        traces@[b].spans@[j].event.event_type == k.0,
        traces@[b].spans@[j].template@ == k.1,
    ensures
        ({
            let group = positions_of(traces, k);
            let worst = order::ranked(entries(traces@, group))[group.len() - 1];
            let d = traces@[b].spans@[j].event.duration_us;
            &&& d <= worst.duration_us
            &&& worst.at.trace < b || (worst.at.trace == b && worst.at.span < j) ==> d
                < worst.duration_us
        }),
{
    let group = positions_of(traces, k);
    let all = entries(traces@, group);
    let sorted = order::ranked(all);
    let n = group.len() as int;
    let every = all_positions(traces@, traces@.len());
    let g = AcrossTraces { traces };
    assert(traces.len() == traces@.len());
    assert forall|t: int| 0 <= t < traces@.len() implies (#[trigger] traces@[t]).spans@.len()
        <= usize::MAX by {
        assert(traces@[t].spans.len() == traces@[t].spans@.len());
    }
    let x = lemma_position_listed(traces, k, b, j);
    let e = all[x];
    let placed = |p: SpanPosition, q: SpanPosition| stands_before(p, q);
    let before = |p: DurationEntry, q: DurationEntry| stands_before(p.at, q.at);
    lemma_positions_ascend(traces@, traces@.len());
    permutation::lemma_filter_in_order(every, placed, grouping::in_class(g, k));
    assert forall|i: int, m: int|
        #![trigger all[i], all[m]]
        0 <= i < m < all.len() implies before(all[i], all[m]) by {
        assert(placed(group[i], group[m]));
    }
    order::lemma_ranked(all);
    order::lemma_ranked_stable(all, before);
    assert(all.contains(e));
    permutation::lemma_contains_permutation(all, sorted, e);
    let m = choose|m: int| 0 <= m < sorted.len() && sorted[m] == e;
    let worst = sorted[n - 1];
    if m < n - 1 {
        assert(sorted[m].rank_le(&sorted[n - 1]));
        if e.duration_us == worst.duration_us {
            assert(sorted[n - 1].rank_le(&sorted[m]));
            assert(before(sorted[m], sorted[n - 1]));
        }
    }
}

/// A finding across traces is told by the last of the slowest spans of its operation, in order of
/// the traces and of the spans in them: no span is slower, and every later one is faster.
pub proof fn law_last_of_the_slowest_spans_tells(
    traces: &[Trace],
    threshold_ms: u64,
    min_occurrences: nat,
    kind: EventType,
    template: Seq<char>,
    f: FindingView,
) -> (r: (int, int))
    requires
        cross_trace_findings(traces, threshold_ms, min_occurrences).contains(f),
        f.finding_type == FindingType::slow(kind),
        f.pattern.template == template,
    ensures
        ({
            let (a, i) = r;
            let slowest = traces@[a].spans@[i];
            &&& 0 <= a < traces@.len()
            &&& 0 <= i < traces@[a].spans@.len()
            &&& slowest.event.event_type == kind
            &&& slowest.template@ == template
            &&& f.trace_id == traces@[a].trace_id@
            &&& f.service == slowest.event.service@
            &&& f.source_endpoint == slowest.event.source.endpoint@
            &&& f.grouping == event::grouping_views(slowest.event.grouping@)
            &&& f.code_location == slowest.event.location()
            &&& f.instrumentation_scopes == event::texts(slowest.event.instrumentation_scopes@)
            &&& forall|b: int, j: int|
                0 <= b < traces@.len() && 0 <= j < traces@[b].spans@.len() && (
                #[trigger] traces@[b].spans@[j]).event.event_type == kind
                    && traces@[b].spans@[j].template@ == template ==> {
                    let d = traces@[b].spans@[j].event.duration_us;
                    &&& d <= slowest.event.duration_us
                    &&& a < b || (a == b && i < j) ==> d < slowest.event.duration_us
                }
        }),
{
    let k = (kind, template);
    let group = positions_of(traces, k);
    lemma_spans_of(traces, kind, template);
    lemma_found_of_class(traces, threshold_ms, min_occurrences, k);
    lemma_slowest(traces@, group, threshold_ms);
    let worst = order::ranked(entries(traces@, group))[group.len() - 1];
    let w = choose|w: int| 0 <= w < group.len() && group[w] == worst.at;
    assert(is_position(traces@, group[w]));
    let (a, i) = (worst.at.trace as int, worst.at.span as int);
    assert forall|b: int, j: int|
        0 <= b < traces@.len() && 0 <= j < traces@[b].spans@.len() && (
        #[trigger] traces@[b].spans@[j]).event.event_type == kind
            && traces@[b].spans@[j].template@ == template implies ({
        let d = traces@[b].spans@[j].event.duration_us;
        &&& d <= worst.duration_us
        &&& a < b || (a == b && i < j) ==> d < worst.duration_us
    }) by {
        lemma_last_of_the_slowest(traces, k, b, j);
    }
    (a, i)
}

} // verus!

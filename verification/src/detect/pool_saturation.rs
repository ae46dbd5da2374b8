//! Connection pool saturation detection: identifies traces where many SQL spans from the same
//! service overlap in time, suggesting connection pool contention.

use crate::detect::finding;
use crate::detect::finding::{
    Confidence, Finding, FindingType, FindingView, Pattern, PatternView, Severity,
};
use crate::detect::grouping;
use crate::detect::grouping::Classifier;
use crate::detect::measure;
use crate::detect::n_plus_one;
use crate::detect::n_plus_one::SpanBounds;
use crate::detect::redundant;
use crate::event;
use crate::event::{EventType, NormalizedEvent, Trace};
use crate::order;
use crate::order::Ranked;
use crate::permutation;
use crate::text;
use crate::time;
use vstd::prelude::*;
use vstd::string::*;

verus! {

/// The SQL spans of a trace by service and grouping attribute: those that share a pool.
pub struct SqlPools {}

impl Classifier<NormalizedEvent> for SqlPools {
    type Key = (Seq<char>, Option<(Seq<char>, Seq<char>)>);

    open spec fn judges(&self, span: NormalizedEvent) -> bool {
        true
    }

    open spec fn included(&self, span: NormalizedEvent) -> bool {
        span.event.event_type is Sql
    }

    open spec fn key(&self, span: NormalizedEvent) -> (
        Seq<char>,
        Option<(Seq<char>, Seq<char>)>,
    ) {
        (span.event.service@, span.event.identity())
    }

    fn includes(&self, span: &NormalizedEvent) -> (r: bool) {
        span.event.event_type == EventType::Sql
    }

    fn same_key(&self, a: &NormalizedEvent, b: &NormalizedEvent) -> (r: bool) {
        a.event.service == b.event.service && a.event.same_grouping(&b.event)
    }
}

/// Whether a span runs at an instant: from its start on, until just before its end.
pub open spec fn runs_at(b: SpanBounds, t: u64) -> bool {
    b.start_us <= t < b.end_us
}

/// The test whether a span runs at an instant.
pub open spec fn running(t: u64) -> spec_fn(SpanBounds) -> bool {
    |b: SpanBounds| runs_at(b, t)
}

/// How many spans run at an instant.
pub open spec fn running_count(bounds: Seq<SpanBounds>, t: u64) -> nat {
    permutation::count_if(bounds, running(t))
}

/// Whether so many spans, and never more, run at one instant.
pub open spec fn is_peak(bounds: Seq<SpanBounds>, peak: nat) -> bool {
    &&& forall|t: u64| #[trigger] running_count(bounds, t) <= peak
    &&& exists|t: u64| #[trigger] running_count(bounds, t) == peak
}

/// The largest number of spans that run at one instant.
pub open spec fn peak_of(bounds: Seq<SpanBounds>) -> nat {
    choose|peak: nat| is_peak(bounds, peak)
}

/// Whether the peak is reached at an instant, and not before.
pub open spec fn is_first_peak(bounds: Seq<SpanBounds>, t: u64) -> bool {
    &&& running_count(bounds, t) == peak_of(bounds)
    &&& forall|u: u64| u < t ==> #[trigger] running_count(bounds, u) < peak_of(bounds)
}

/// The instant at which the peak is first reached.
pub open spec fn first_peak_of(bounds: Seq<SpanBounds>) -> u64 {
    choose|t: u64| is_first_peak(bounds, t)
}

/// The peak concurrency of a group of spans.
pub open spec fn peak_concurrency(group: Seq<NormalizedEvent>) -> nat {
    peak_of(n_plus_one::group_bounds(group))
}

/// Whether a span of a group runs at an instant.
pub open spec fn span_runs_at(t: u64) -> spec_fn(NormalizedEvent) -> bool {
    |s: NormalizedEvent| n_plus_one::span_bounds(s) matches Some(b) && runs_at(b, t)
}

/// The spans that run when the peak is first reached; none if no span ever runs.
pub open spec fn peak_members(group: Seq<NormalizedEvent>) -> Seq<NormalizedEvent> {
    if peak_concurrency(group) == 0 {
        Seq::empty()
    } else {
        group.filter(span_runs_at(first_peak_of(n_plus_one::group_bounds(group))))
    }
}

/// The remediation hint for a saturated pool.
pub open spec fn saturation_hint(service: Seq<char>, peak: nat, window_ms: u64) -> Seq<char> {
    "Potential connection pool saturation: service "@ + service + " has "@ + text::decimal(peak)
        + " concurrent SQL spans within "@ + text::decimal(window_ms as nat)
        + "ms window. Consider increasing the connection pool size, optimizing long-running queries or using connection pool metrics (db.client.connection.pool.*) for precise monitoring"@
}

/// The finding on a pool with a peak of concurrent spans.
pub open spec fn saturation_finding(
    trace_id: Seq<char>,
    group: Seq<NormalizedEvent>,
    peak: nat,
) -> FindingView {
    let ts = measure::timestamps(group);
    FindingView {
        finding_type: FindingType::PoolSaturation,
        severity: Severity::Warning,
        trace_id,
        service: group[0].event.service@,
        grouping: event::grouping_views(group[0].event.grouping@),
        source_endpoint: group[0].event.source.endpoint@,
        pattern: PatternView {
            template: group[0].event.service@,
            occurrences: peak,
            window_ms: measure::window(ts),
            distinct_params: group.len(),
            occurrences_by_service: Seq::empty(),
        },
        suggestion: saturation_hint(group[0].event.service@, peak, measure::window(ts)),
        first_timestamp: measure::earliest(ts),
        last_timestamp: measure::latest(ts),
        green_impact: None,
        confidence: Confidence::CiBatch,
        classification_method: None,
        code_location: None,
        instrumentation_scopes: Seq::empty(),
        suggested_fix: None,
        signature: Seq::empty(),
    }
}

/// The finding on a pool, if its peak concurrency reaches the threshold.
pub open spec fn pool_finding(
    trace_id: Seq<char>,
    group: Seq<NormalizedEvent>,
    threshold: nat,
) -> Option<FindingView> {
    if peak_concurrency(group) >= threshold {
        Some(saturation_finding(trace_id, group, peak_concurrency(group)))
    } else {
        None
    }
}

/// The pool saturation findings of a trace, in order of first occurrence.
pub open spec fn pool_findings(
    trace_id: Seq<char>,
    spans: Seq<NormalizedEvent>,
    threshold: nat,
) -> Seq<FindingView> {
    grouping::groups(SqlPools {  }, spans).filter_map(
        |group: Seq<NormalizedEvent>| pool_finding(trace_id, group, threshold),
    )
}

/// The finding on a pool with the identifiers of the spans that run at its first peak.
pub open spec fn pool_evidence(
    trace_id: Seq<char>,
    group: Seq<NormalizedEvent>,
    threshold: nat,
) -> Option<(FindingView, Seq<Seq<char>>)> {
    match pool_finding(trace_id, group, threshold) {
        Some(f) => Some((f, redundant::span_ids(peak_members(group)))),
        None => None,
    }
}

/// A span starts or ends.
#[derive(Debug, Clone, Copy, PartialEq, Eq, Structural)]
pub struct SweepEvent {
    pub at: u64,
    pub is_start: bool,
}

impl Ranked for SweepEvent {
    open spec fn rank_le(&self, other: &Self) -> bool {
        self.at < other.at || (self.at == other.at && (!self.is_start || other.is_start))
    }

    proof fn rank_total(a: Self, b: Self) {
    }

    proof fn rank_transitive(a: Self, b: Self, c: Self) {
    }

    fn may_precede(&self, other: &Self) -> (r: bool) {
        self.at < other.at || (self.at == other.at && (!self.is_start || other.is_start))
    }
}

spec fn sweep_events(bounds: Seq<SpanBounds>) -> Seq<SweepEvent>
    decreases bounds.len(),
{
    if bounds.len() == 0 {
        Seq::empty()
    } else {
        let rest = sweep_events(bounds.drop_last());
        let b = bounds.last();
        if b.start_us < b.end_us {
            rest.push(SweepEvent { at: b.start_us, is_start: true }).push(
                SweepEvent { at: b.end_us, is_start: false },
            )
        } else {
            rest
        }
    }
}

spec fn start_by(t: u64) -> spec_fn(SweepEvent) -> bool {
    |e: SweepEvent| e.is_start && e.at <= t
}

spec fn start_before(t: u64) -> spec_fn(SweepEvent) -> bool {
    |e: SweepEvent| e.is_start && e.at < t
}

spec fn end_by(t: u64) -> spec_fn(SweepEvent) -> bool {
    |e: SweepEvent| !e.is_start && e.at <= t
}

spec fn any_start() -> spec_fn(SweepEvent) -> bool {
    |e: SweepEvent| e.is_start
}

spec fn any_end() -> spec_fn(SweepEvent) -> bool {
    |e: SweepEvent| !e.is_start
}

proof fn lemma_event_counts(bounds: Seq<SpanBounds>, t: u64)
    ensures
        permutation::count_if(sweep_events(bounds), start_by(t)) == permutation::count_if(
            sweep_events(bounds),
            end_by(t),
        ) + running_count(bounds, t),
        permutation::count_if(sweep_events(bounds), end_by(t)) <= permutation::count_if(
            sweep_events(bounds),
            start_before(t),
        ),
    decreases bounds.len(),
{
    if bounds.len() > 0 {
        lemma_event_counts(bounds.drop_last(), t);
        let rest = sweep_events(bounds.drop_last());
        let b = bounds.last();
        if b.start_us < b.end_us {
            let one = rest.push(SweepEvent { at: b.start_us, is_start: true });
            let two = one.push(SweepEvent { at: b.end_us, is_start: false });
            assert(two.drop_last() =~= one);
            assert(one.drop_last() =~= rest);
            assert(sweep_events(bounds) == two);
            let begun = start_by(t);
            let begun_before = start_before(t);
            let ended = end_by(t);
            assert(permutation::count_if(one, begun) == permutation::count_if(rest, begun) + (
            if b.start_us <= t {
                1nat
            } else {
                0nat
            }));
            assert(permutation::count_if(two, begun) == permutation::count_if(one, begun));
            assert(permutation::count_if(one, begun_before) == permutation::count_if(
                rest,
                begun_before,
            ) + (if b.start_us < t {
                1nat
            } else {
                0nat
            }));
            assert(permutation::count_if(two, begun_before) == permutation::count_if(
                one,
                begun_before,
            ));
            assert(permutation::count_if(one, ended) == permutation::count_if(rest, ended));
            assert(permutation::count_if(two, ended) == permutation::count_if(one, ended) + (
            if b.end_us <= t {
                1nat
            } else {
                0nat
            }));
        }
    }
}

/// The spans that have started less those that have ended, after the first `k` events.
spec fn level(events: Seq<SweepEvent>, k: int) -> int {
    permutation::count_if(events.take(k), any_start()) - permutation::count_if(
        events.take(k),
        any_end(),
    )
}

proof fn lemma_level_step(events: Seq<SweepEvent>, k: int)
    requires
        0 <= k < events.len(),
    ensures
        level(events, k + 1) == level(events, k) + (if events[k].is_start {
            1int
        } else {
            -1int
        }),
{
    assert(events.take(k + 1).drop_last() =~= events.take(k));
}

/// How many of ranked events lie at or before an instant.
spec fn events_by(events: Seq<SweepEvent>, t: u64, k: int) -> int
    decreases k,
{
    if k <= 0 {
        0
    } else if events[k - 1].at <= t {
        k
    } else {
        events_by(events, t, k - 1)
    }
}

proof fn lemma_events_by(events: Seq<SweepEvent>, t: u64, k: int)
    requires
        order::is_ranked(events),
        0 <= k <= events.len(),
        forall|i: int| k <= i < events.len() ==> (#[trigger] events[i]).at > t,
    ensures
        0 <= events_by(events, t, k) <= k,
        forall|i: int| 0 <= i < events_by(events, t, k) ==> (#[trigger] events[i]).at <= t,
        forall|i: int| events_by(events, t, k) <= i < events.len() ==> (#[trigger] events[i]).at
            > t,
    decreases k,
{
    if k > 0 {
        if events[k - 1].at <= t {
            assert forall|i: int| 0 <= i < k implies (#[trigger] events[i]).at <= t by {
                if i < k - 1 {
                    assert(events[i].rank_le(&events[k - 1]));
                }
            }
        } else {
            lemma_events_by(events, t, k - 1);
        }
    }
}

proof fn lemma_count_split(events: Seq<SweepEvent>, k: int, p: spec_fn(SweepEvent) -> bool)
    requires
        0 <= k <= events.len(),
    ensures
        permutation::count_if(events, p) == permutation::count_if(events.take(k), p)
            + permutation::count_if(events.skip(k), p),
{
    permutation::lemma_count_add(events.take(k), events.skip(k), p);
    assert(events.take(k) + events.skip(k) =~= events);
}

proof fn lemma_count_none(events: Seq<SweepEvent>, p: spec_fn(SweepEvent) -> bool)
    requires
        forall|i: int| 0 <= i < events.len() ==> !p(#[trigger] events[i]),
    ensures
        permutation::count_if(events, p) == 0,
    decreases events.len(),
{
    if events.len() > 0 {
        assert forall|i: int| 0 <= i < events.drop_last().len() implies !p(
            #[trigger] events.drop_last()[i],
        ) by {
            assert(events.drop_last()[i] == events[i]);
        }
        lemma_count_none(events.drop_last(), p);
        assert(events[events.len() - 1] == events.last());
    }
}

/// The level between the events up to an instant and the later ones is the number of spans that
/// run then.
proof fn lemma_level_at(bounds: Seq<SpanBounds>, events: Seq<SweepEvent>, t: u64)
    requires
        order::is_ranked(events),
        events.to_multiset() == sweep_events(bounds).to_multiset(),
    ensures
        ({
            let k = events_by(events, t, events.len() as int);
            0 <= k <= events.len() && level(events, k) == running_count(bounds, t)
        }),
{
    let n = events.len() as int;
    let k = events_by(events, t, n);
    lemma_events_by(events, t, n);
    lemma_event_counts(bounds, t);
    permutation::lemma_count_permutation(sweep_events(bounds), events, start_by(t));
    permutation::lemma_count_permutation(sweep_events(bounds), events, end_by(t));
    lemma_count_split(events, k, start_by(t));
    lemma_count_split(events, k, end_by(t));
    assert forall|i: int| 0 <= i < events.skip(k).len() implies !(start_by(t))(
        #[trigger] events.skip(k)[i],
    ) && !(end_by(t))(events.skip(k)[i]) by {
        assert(events.skip(k)[i] == events[k + i]);
    }
    lemma_count_none(events.skip(k), start_by(t));
    lemma_count_none(events.skip(k), end_by(t));
    assert forall|i: int| 0 <= i < events.take(k).len() implies (start_by(t))(
        #[trigger] events.take(k)[i],
    ) == (any_start())(events.take(k)[i]) && (end_by(t))(events.take(k)[i]) == (any_end())(
        events.take(k)[i],
    ) by {
        assert(events.take(k)[i] == events[i]);
    }
    permutation::lemma_count_same(events.take(k), start_by(t), any_start());
    permutation::lemma_count_same(events.take(k), end_by(t), any_end());
}

/// Behind a start at an instant the level is no higher than the number of spans that run then.
proof fn lemma_level_behind_start(bounds: Seq<SpanBounds>, events: Seq<SweepEvent>, k: int)
    requires
        order::is_ranked(events),
        events.to_multiset() == sweep_events(bounds).to_multiset(),
        0 <= k < events.len(),
        events[k].is_start,
    ensures
        level(events, k + 1) <= running_count(bounds, events[k].at),
{
    let t = events[k].at;
    let m = k + 1;
    lemma_event_counts(bounds, t);
    permutation::lemma_count_permutation(sweep_events(bounds), events, start_by(t));
    permutation::lemma_count_permutation(sweep_events(bounds), events, end_by(t));
    lemma_count_split(events, m, start_by(t));
    lemma_count_split(events, m, end_by(t));
    assert forall|i: int| 0 <= i < events.skip(m).len() implies !(end_by(t))(
        #[trigger] events.skip(m)[i],
    ) by {
        assert(events.skip(m)[i] == events[m + i]);
        assert(events[k].rank_le(&events[m + i]));
    }
    lemma_count_none(events.skip(m), end_by(t));
    assert forall|i: int| 0 <= i < events.take(m).len() implies (start_by(t))(
        #[trigger] events.take(m)[i],
    ) == (any_start())(events.take(m)[i]) && (end_by(t))(events.take(m)[i]) == (any_end())(
        events.take(m)[i],
    ) by {
        assert(events.take(m)[i] == events[i]);
        if i < k {
            assert(events[i].rank_le(&events[k]));
        }
    }
    permutation::lemma_count_same(events.take(m), start_by(t), any_start());
    permutation::lemma_count_same(events.take(m), end_by(t), any_end());
}

/// Before an end the level is positive.
proof fn lemma_level_before_end(bounds: Seq<SpanBounds>, events: Seq<SweepEvent>, k: int)
    requires
        order::is_ranked(events),
        events.to_multiset() == sweep_events(bounds).to_multiset(),
        0 <= k < events.len(),
        !events[k].is_start,
    ensures
        level(events, k) >= 1,
{
    let t = events[k].at;
    lemma_event_counts(bounds, t);
    permutation::lemma_count_permutation(sweep_events(bounds), events, start_before(t));
    permutation::lemma_count_permutation(sweep_events(bounds), events, end_by(t));
    lemma_count_split(events, k, start_before(t));
    lemma_count_split(events, k + 1, end_by(t));
    assert forall|i: int| 0 <= i < events.skip(k).len() implies !(start_before(t))(
        #[trigger] events.skip(k)[i],
    ) by {
        assert(events.skip(k)[i] == events[k + i]);
        if i > 0 {
            assert(events[k].rank_le(&events[k + i]));
        }
    }
    lemma_count_none(events.skip(k), start_before(t));
    permutation::lemma_count_implies(events.take(k), start_before(t), any_start());
    assert forall|i: int| 0 <= i < events.take(k + 1).len() implies (end_by(t))(
        #[trigger] events.take(k + 1)[i],
    ) == (any_end())(events.take(k + 1)[i]) by {
        assert(events.take(k + 1)[i] == events[i]);
        if i < k {
            assert(events[i].rank_le(&events[k]));
        }
    }
    permutation::lemma_count_same(events.take(k + 1), end_by(t), any_end());
    assert(events.take(k + 1).drop_last() =~= events.take(k));
}

proof fn lemma_peak_unique(bounds: Seq<SpanBounds>, p: nat)
    requires
        is_peak(bounds, p),
    ensures
        peak_of(bounds) == p,
{
    let q = peak_of(bounds);
    assert(is_peak(bounds, q));
    let t = choose|t: u64| #[trigger] running_count(bounds, t) == p;
    let u = choose|u: u64| #[trigger] running_count(bounds, u) == q;
    assert(running_count(bounds, t) <= q);
    assert(running_count(bounds, u) <= p);
}

proof fn lemma_first_peak_unique(bounds: Seq<SpanBounds>, t: u64)
    requires
        is_first_peak(bounds, t),
    ensures
        first_peak_of(bounds) == t,
{
    let u = first_peak_of(bounds);
    assert(is_first_peak(bounds, u));
    if u < t {
        assert(running_count(bounds, u) < peak_of(bounds));
    } else if t < u {
        assert(running_count(bounds, t) < peak_of(bounds));
    }
}

/// The peak concurrency of spans and, when there is any, the instant of its first peak.
fn sweep(bounds: &Vec<SpanBounds>) -> (r: (usize, u64))
    ensures
        is_peak(bounds@, r.0 as nat),
        r.0 == peak_of(bounds@),
        r.0 <= bounds@.len(),
        r.0 > 0 ==> r.1 == first_peak_of(bounds@) && is_first_peak(bounds@, r.1),
{
    let mut unsorted: Vec<SweepEvent> = Vec::new();
    let mut i: usize = 0;
    assert(unsorted@ =~= sweep_events(bounds@.take(0)));
    while i < bounds.len()
        invariant
            i <= bounds@.len(),
            unsorted@ == sweep_events(bounds@.take(i as int)),
        decreases bounds@.len() - i,
    {
        let b = bounds[i];
        proof {
            assert(bounds@.take(i + 1).drop_last() =~= bounds@.take(i as int));
        }
        if b.start_us < b.end_us {
            unsorted.push(SweepEvent { at: b.start_us, is_start: true });
            unsorted.push(SweepEvent { at: b.end_us, is_start: false });
        }
        i += 1;
    }
    assert(bounds@.take(i as int) =~= bounds@);
    let ghost all = unsorted@;
    let events = order::sort_ranked(unsorted);
    proof {
        order::lemma_ranked(all);
        assert(level(events@, 0) == 0) by {
            assert(events@.take(0) =~= Seq::<SweepEvent>::empty());
        }
    }
    let mut current: usize = 0;
    let mut peak: usize = 0;
    let mut instant: u64 = 0;
    let ghost mut best: int = 0;
    let mut k: usize = 0;
    while k < events.len()
        invariant
            k <= events@.len(),
            order::is_ranked(events@),
            events@.to_multiset() == sweep_events(bounds@).to_multiset(),
            current == level(events@, k as int),
            current <= k,
            0 <= best <= k,
            level(events@, best) == peak,
            forall|j: int| 0 <= j <= k ==> #[trigger] level(events@, j) <= peak,
            forall|j: int| 0 <= j < best ==> #[trigger] level(events@, j) < peak,
            peak > 0 ==> best > 0 && events@[best - 1].is_start && events@[best - 1].at == instant,
        decreases events@.len() - k,
    {
        proof {
            lemma_level_step(events@, k as int);
            if !events@[k as int].is_start {
                lemma_level_before_end(bounds@, events@, k as int);
            }
        }
        if events[k].is_start {
            current += 1;
        } else {
            current -= 1;
        }
        if current > peak {
            peak = current;
            instant = events[k].at;
            proof {
                best = k + 1;
            }
        }
        k += 1;
    }
    proof {
        let e = events@;
        assert forall|t: u64| #[trigger] running_count(bounds@, t) <= peak by {
            lemma_level_at(bounds@, e, t);
            let j = events_by(e, t, e.len() as int);
            assert(level(e, j) <= peak);
        }
        if peak > 0 {
            lemma_level_behind_start(bounds@, e, best - 1);
            assert(running_count(bounds@, instant) == peak);
        } else {
            assert(running_count(bounds@, 0) == peak);
        }
        lemma_peak_unique(bounds@, peak as nat);
        if peak > 0 {
            assert forall|u: u64| u < instant implies #[trigger] running_count(bounds@, u)
                < peak_of(bounds@) by {
                lemma_level_at(bounds@, e, u);
                lemma_events_by(e, u, e.len() as int);
                let j = events_by(e, u, e.len() as int);
                if j >= best {
                    assert(e[best - 1].at <= u);
                }
                assert(level(e, j) < peak);
            }
            lemma_first_peak_unique(bounds@, instant);
        }
        permutation::lemma_count_bound(bounds@, running(instant));
        permutation::lemma_count_bound(bounds@, running(0));
    }
    (peak, instant)
}

fn collect_bounds(trace: &Trace, indices: &Vec<usize>) -> (r: Vec<SpanBounds>)
    requires
        forall|k: int| 0 <= k < indices@.len() ==> #[trigger] indices@[k] < trace.spans@.len(),
    ensures
        r@ == n_plus_one::group_bounds(grouping::at_positions(trace.spans@, indices@)),
        r@.len() <= indices@.len(),
{
    let ghost group = grouping::at_positions(trace.spans@, indices@);
    let mut bounds: Vec<SpanBounds> = Vec::new();
    let mut j: usize = 0;
    assert(bounds@ =~= n_plus_one::group_bounds(group.take(0)));
    while j < indices.len()
        invariant
            j <= indices@.len(),
            forall|k: int| 0 <= k < indices@.len() ==> #[trigger] indices@[k] < trace.spans@.len(),
            group == grouping::at_positions(trace.spans@, indices@),
            bounds@ == n_plus_one::group_bounds(group.take(j as int)),
            bounds@.len() <= j,
        decreases indices@.len() - j,
    {
        proof {
            assert(group.take(j + 1).drop_last() =~= group.take(j as int));
            assert(group.take(j + 1).last() == trace.spans@[indices@[j as int] as int]);
        }
        if let Some(b) = n_plus_one::bounds_of(&trace.spans[indices[j]]) {
            bounds.push(b);
        }
        assert(bounds@ =~= n_plus_one::group_bounds(group.take(j + 1)));
        j += 1;
    }
    assert(group.take(j as int) =~= group);
    bounds
}

/// The largest number of the indexed spans that run at one instant. A span that ends as another
/// starts does not run together with it, and one without duration never runs.
pub fn compute_peak_concurrency(trace: &Trace, indices: &Vec<usize>) -> (r: usize)
    requires
        forall|k: int| 0 <= k < indices@.len() ==> #[trigger] indices@[k] < trace.spans@.len(),
    ensures
        r == peak_concurrency(grouping::at_positions(trace.spans@, indices@)),
        r <= indices@.len(),
{
    sweep(&collect_bounds(trace, indices)).0
}

/// The identifiers of the indexed spans that run when the peak concurrency is first reached.
pub fn peak_span_ids<'a>(trace: &'a Trace, indices: &Vec<usize>) -> (r: Vec<&'a str>)
    requires
        forall|k: int| 0 <= k < indices@.len() ==> #[trigger] indices@[k] < trace.spans@.len(),
    ensures
        r@.map_values(|t: &str| t@) == redundant::span_ids(
            peak_members(grouping::at_positions(trace.spans@, indices@)),
        ),
{
    let ghost group = grouping::at_positions(trace.spans@, indices@);
    let (peak, instant) = sweep(&collect_bounds(trace, indices));
    let mut out: Vec<&'a str> = Vec::new();
    if peak == 0 {
        assert(out@.map_values(|t: &str| t@) =~= redundant::span_ids(peak_members(group)));
        return out;
    }
    let mut i: usize = 0;
    proof {
        reveal(Seq::filter);
        assert(out@.map_values(|t: &str| t@) =~= redundant::span_ids(
            group.take(0).filter(span_runs_at(instant)),
        ));
    }
    while i < indices.len()
        invariant
            i <= indices@.len(),
            forall|k: int| 0 <= k < indices@.len() ==> #[trigger] indices@[k] < trace.spans@.len(),
            group == grouping::at_positions(trace.spans@, indices@),
            out@.map_values(|t: &str| t@) == redundant::span_ids(
                group.take(i as int).filter(span_runs_at(instant)),
            ),
        decreases indices@.len() - i,
    {
        let span = &trace.spans[indices[i]];
        let ghost before = out@;
        proof {
            reveal(Seq::filter);
            assert(group.take(i + 1).drop_last() =~= group.take(i as int));
            assert(group.take(i + 1).last() == *span);
        }
        let runs = match n_plus_one::bounds_of(span) {
            Some(b) => b.start_us <= instant && instant < b.end_us,
            None => false,
        };
        if runs {
            out.push(span.event.span_id.as_str());
            assert(out@.map_values(|t: &str| t@) =~= before.map_values(|t: &str| t@).push(
                span.event.span_id@,
            ));
        }
        assert(out@.map_values(|t: &str| t@) =~= redundant::span_ids(
            group.take(i + 1).filter(span_runs_at(instant)),
        ));
        i += 1;
    }
    assert(group.take(i as int) =~= group);
    out
}

proof fn lemma_members_counted(group: Seq<NormalizedEvent>, t: u64)
    ensures
        group.filter(span_runs_at(t)).len() == running_count(n_plus_one::group_bounds(group), t),
    decreases group.len(),
{
    reveal(Seq::filter);
    if group.len() > 0 {
        let rest = group.drop_last();
        lemma_members_counted(rest, t);
        let b = n_plus_one::group_bounds(rest);
        match n_plus_one::span_bounds(group.last()) {
            Some(x) => {
                assert(n_plus_one::group_bounds(group) =~= b.push(x));
                assert(b.push(x).drop_last() =~= b);
            },
            None => {
                assert(n_plus_one::group_bounds(group) =~= b);
            },
        }
    }
}

proof fn lemma_peak_exists(bounds: Seq<SpanBounds>, limit: nat)
    requires
        forall|t: u64| #[trigger] running_count(bounds, t) <= limit,
    ensures
        is_peak(bounds, peak_of(bounds)),
    decreases limit,
{
    if exists|t: u64| #[trigger] running_count(bounds, t) == limit {
        assert(is_peak(bounds, limit));
    } else {
        assert(running_count(bounds, 0) <= limit);
        lemma_peak_exists(bounds, (limit - 1) as nat);
    }
}

/// There is a peak, and every instant keeps below it.
pub proof fn law_peak_is_reached_and_never_exceeded(bounds: Seq<SpanBounds>)
    ensures
        is_peak(bounds, peak_of(bounds)),
        peak_of(bounds) <= bounds.len(),
{
    assert forall|t: u64| #[trigger] running_count(bounds, t) <= bounds.len() by {
        permutation::lemma_count_bound(bounds, running(t));
    }
    lemma_peak_exists(bounds, bounds.len());
    let t = choose|t: u64| #[trigger] running_count(bounds, t) == peak_of(bounds);
}

proof fn lemma_first_peak_exists(bounds: Seq<SpanBounds>, t: u64)
    requires
        running_count(bounds, t) == peak_of(bounds),
        forall|u: u64| #[trigger] running_count(bounds, u) <= peak_of(bounds),
    ensures
        is_first_peak(bounds, first_peak_of(bounds)),
    decreases t,
{
    if forall|u: u64| u < t ==> #[trigger] running_count(bounds, u) < peak_of(bounds) {
        assert(is_first_peak(bounds, t));
    } else {
        let u = choose|u: u64|
            u < t && !(#[trigger] running_count(bounds, u) < peak_of(bounds));
        lemma_first_peak_exists(bounds, u);
    }
}

/// The evidence of a saturated pool names exactly as many spans as the peak reports.
pub proof fn law_evidence_matches_the_peak(group: Seq<NormalizedEvent>)
    ensures
        peak_members(group).len() == peak_concurrency(group),
{
    let bounds = n_plus_one::group_bounds(group);
    law_peak_is_reached_and_never_exceeded(bounds);
    let t = choose|t: u64| #[trigger] running_count(bounds, t) == peak_of(bounds);
    lemma_first_peak_exists(bounds, t);
    lemma_members_counted(group, first_peak_of(bounds));
}

fn saturation_suggestion(service: &str, peak: usize, window_ms: u64) -> (r: String)
    ensures
        r@ == saturation_hint(service@, peak as nat, window_ms),
{
    let mut out = String::new();
    out.append("Potential connection pool saturation: service ");
    out.append(service);
    out.append(" has ");
    text::append_decimal(&mut out, peak as u64);
    out.append(" concurrent SQL spans within ");
    text::append_decimal(&mut out, window_ms);
    out.append(
        "ms window. Consider increasing the connection pool size, optimizing long-running queries or using connection pool metrics (db.client.connection.pool.*) for precise monitoring",
    );
    assert(out@ =~= saturation_hint(service@, peak as nat, window_ms));
    out
}

/// The finding on a pool with a peak of concurrent spans.
fn build_saturation_finding(trace: &Trace, indices: &Vec<usize>, peak: usize) -> (r: Finding)
    requires
        forall|k: int| 0 <= k < indices@.len() ==> #[trigger] indices@[k] < trace.spans@.len(),
        indices@.len() > 0,
    ensures
        r@ == saturation_finding(
            trace.trace_id@,
            grouping::at_positions(trace.spans@, indices@),
            peak as nat,
        ),
{
    let first = &trace.spans[indices[0]];
    let service = first.event.service.as_str();
    let stamps = measure::timestamps_at(&trace.spans, indices);
    let (window_ms, first_ts, last_ts) = measure::compute_window_and_bounds(stamps.as_slice());
    let f = Finding {
        finding_type: FindingType::PoolSaturation,
        severity: Severity::Warning,
        trace_id: trace.trace_id.clone(),
        service: service.to_string(),
        grouping: event::copy_grouping(&first.event.grouping),
        source_endpoint: first.event.source.endpoint.clone(),
        pattern: Pattern {
            template: service.to_string(),
            occurrences: peak,
            window_ms,
            distinct_params: indices.len(),
            occurrences_by_service: Vec::new(),
        },
        suggestion: saturation_suggestion(service, peak, window_ms),
        first_timestamp: first_ts.to_string(),
        last_timestamp: last_ts.to_string(),
        green_impact: None,
        confidence: Confidence::default(),
        classification_method: None,
        code_location: None,
        instrumentation_scopes: Vec::new(),
        suggested_fix: None,
        signature: String::new(),
    };
    assert(finding::service_counts(f.pattern.occurrences_by_service@) =~= Seq::empty());
    assert(event::texts(f.instrumentation_scopes@) =~= Seq::empty());
    f
}

/// A group of spans, by position, with its peak concurrency.
pub struct SaturatedPool {
    pub indices: Vec<usize>,
    pub peak: usize,
}

/// The pools of a trace whose peak concurrency reaches the threshold.
pub open spec fn saturated(group: Seq<NormalizedEvent>, threshold: nat) -> Option<
    Seq<NormalizedEvent>,
> {
    if peak_concurrency(group) >= threshold {
        Some(group)
    } else {
        None
    }
}

/// The groups of pools.
pub open spec fn pool_groups(
    spans: Seq<NormalizedEvent>,
    pools: Seq<SaturatedPool>,
) -> Seq<Seq<NormalizedEvent>> {
    pools.map_values(|p: SaturatedPool| grouping::at_positions(spans, p.indices@))
}

/// The pools whose SQL spans reach `threshold` concurrent, in order of first occurrence.
fn saturated_services(trace: &Trace, threshold: usize) -> (r: Vec<SaturatedPool>)
    ensures
        pool_groups(trace.spans@, r@) == grouping::groups(
            SqlPools {  },
            trace.spans@,
        ).filter_map(|group: Seq<NormalizedEvent>| saturated(group, threshold as nat)),
        forall|k: int|
            0 <= k < r@.len() ==> grouping::ascending_positions(
                (#[trigger] r@[k]).indices@,
                trace.spans@.len(),
            ) && r@[k].indices@.len() > 0 && r@[k].peak == peak_concurrency(
                grouping::at_positions(trace.spans@, r@[k].indices@),
            ) && r@[k].peak >= threshold,
{
    let ghost f = |group: Seq<NormalizedEvent>| saturated(group, threshold as nat);
    let ghost all = grouping::groups(SqlPools {  }, trace.spans@);
    let groups = grouping::group_items(&SqlPools {  }, &trace.spans);
    let mut out: Vec<SaturatedPool> = Vec::new();
    let mut k: usize = 0;
    assert(pool_groups(trace.spans@, out@) =~= all.take(0).filter_map(f));
    while k < groups.len()
        invariant
            k <= groups@.len(),
            groups@.len() == all.len(),
            f == (|group: Seq<NormalizedEvent>| saturated(group, threshold as nat)),
            forall|m: int|
                0 <= m < groups@.len() ==> grouping::at_positions(
                    trace.spans@,
                    (#[trigger] groups@[m])@,
                ) == all[m],
            forall|m: int|
                0 <= m < groups@.len() ==> grouping::ascending_positions(
                    (#[trigger] groups@[m])@,
                    trace.spans@.len(),
                ) && groups@[m]@.len() > 0,
            pool_groups(trace.spans@, out@) == all.take(k as int).filter_map(f),
            forall|m: int|
                0 <= m < out@.len() ==> grouping::ascending_positions(
                    (#[trigger] out@[m]).indices@,
                    trace.spans@.len(),
                ) && out@[m].indices@.len() > 0 && out@[m].peak == peak_concurrency(
                    grouping::at_positions(trace.spans@, out@[m].indices@),
                ) && out@[m].peak >= threshold,
        decreases groups@.len() - k,
    {
        let indices = &groups[k];
        let ghost before = out@;
        let ghost group = grouping::at_positions(trace.spans@, indices@);
        proof {
            assert(all.take(k + 1).drop_last() =~= all.take(k as int));
            assert(all.take(k + 1).last() == group);
            lemma_bounds_len(group);
            law_peak_is_reached_and_never_exceeded(n_plus_one::group_bounds(group));
        }
        if indices.len() >= threshold {
            let peak = compute_peak_concurrency(trace, indices);
            if peak >= threshold {
                out.push(SaturatedPool { indices: indices.clone(), peak });
                assert(pool_groups(trace.spans@, out@) =~= pool_groups(trace.spans@, before).push(
                    group,
                ));
            }
        }
        assert(pool_groups(trace.spans@, out@) =~= all.take(k + 1).filter_map(f));
        k += 1;
    }
    assert(all.take(k as int) =~= all);
    out
}

proof fn lemma_bounds_len(group: Seq<NormalizedEvent>)
    ensures
        n_plus_one::group_bounds(group).len() <= group.len(),
    decreases group.len(),
{
    if group.len() > 0 {
        lemma_bounds_len(group.drop_last());
    }
}

proof fn lemma_findings_of_pools(
    groups: Seq<Seq<NormalizedEvent>>,
    trace_id: Seq<char>,
    threshold: nat,
)
    ensures
        groups.filter_map(|group: Seq<NormalizedEvent>| saturated(group, threshold)).map_values(
            |group: Seq<NormalizedEvent>|
                saturation_finding(trace_id, group, peak_concurrency(group)),
        ) == groups.filter_map(
            |group: Seq<NormalizedEvent>| pool_finding(trace_id, group, threshold),
        ),
        groups.filter_map(|group: Seq<NormalizedEvent>| saturated(group, threshold)).map_values(
            |group: Seq<NormalizedEvent>|
                (
                    saturation_finding(trace_id, group, peak_concurrency(group)),
                    redundant::span_ids(peak_members(group)),
                ),
        ) == groups.filter_map(
            |group: Seq<NormalizedEvent>| pool_evidence(trace_id, group, threshold),
        ),
    decreases groups.len(),
{
    let f = |group: Seq<NormalizedEvent>| saturated(group, threshold);
    let g = |group: Seq<NormalizedEvent>| pool_finding(trace_id, group, threshold);
    let e = |group: Seq<NormalizedEvent>| pool_evidence(trace_id, group, threshold);
    let h = |group: Seq<NormalizedEvent>|
        saturation_finding(trace_id, group, peak_concurrency(group));
    let j = |group: Seq<NormalizedEvent>|
        (
            saturation_finding(trace_id, group, peak_concurrency(group)),
            redundant::span_ids(peak_members(group)),
        );
    if groups.len() > 0 {
        lemma_findings_of_pools(groups.drop_last(), trace_id, threshold);
        let rest = groups.drop_last().filter_map(f);
        let x = groups.last();
        if peak_concurrency(x) >= threshold {
            assert((rest + seq![x]).map_values(h) =~= rest.map_values(h) + seq![h(x)]);
            assert((rest + seq![x]).map_values(j) =~= rest.map_values(j) + seq![j(x)]);
        }
    } else {
        assert(groups.filter_map(f).map_values(h) =~= groups.filter_map(g));
        assert(groups.filter_map(f).map_values(j) =~= groups.filter_map(e));
    }
}

/// Detect connection pool saturation within a trace.
///
/// Groups SQL spans by service and grouping attribute and reports a group of which `threshold` or
/// more run at one instant.
pub fn detect_pool_saturation(trace: &Trace, threshold: u32) -> (r: Vec<Finding>)
    ensures
        finding::finding_views(r@) == pool_findings(
            trace.trace_id@,
            trace.spans@,
            threshold as nat,
        ),
{
    let pools = saturated_services(trace, threshold as usize);
    let ghost groups = pool_groups(trace.spans@, pools@);
    let mut out: Vec<Finding> = Vec::new();
    let mut k: usize = 0;
    while k < pools.len()
        invariant
            k <= pools@.len(),
            groups == pool_groups(trace.spans@, pools@),
            forall|m: int|
                0 <= m < pools@.len() ==> grouping::ascending_positions(
                    (#[trigger] pools@[m]).indices@,
                    trace.spans@.len(),
                ) && pools@[m].indices@.len() > 0 && pools@[m].peak == peak_concurrency(
                    grouping::at_positions(trace.spans@, pools@[m].indices@),
                ),
            out@.len() == k,
            forall|m: int|
                0 <= m < k ==> (#[trigger] out@[m])@ == saturation_finding(
                    trace.trace_id@,
                    groups[m],
                    peak_concurrency(groups[m]),
                ),
        decreases pools@.len() - k,
    {
        assert(groups[k as int] == grouping::at_positions(
            trace.spans@,
            pools@[k as int].indices@,
        ));
        out.push(build_saturation_finding(trace, &pools[k].indices, pools[k].peak));
        k += 1;
    }
    proof {
        lemma_findings_of_pools(
            grouping::groups(SqlPools {  }, trace.spans@),
            trace.trace_id@,
            threshold as nat,
        );
        assert(finding::finding_views(out@) =~= groups.map_values(
            |group: Seq<NormalizedEvent>|
                saturation_finding(trace.trace_id@, group, peak_concurrency(group)),
        ));
    }
    out
}

/// The same detection, with the identifiers of the spans that run at the first peak.
pub fn detect_pool_saturation_with_spans<'a>(
    trace: &'a Trace,
    threshold: u32,
) -> (r: Vec<(Finding, Vec<&'a str>)>)
    ensures
        redundant::evidence_views(r@) == grouping::groups(
            SqlPools {  },
            trace.spans@,
        ).filter_map(
            |group: Seq<NormalizedEvent>|
                pool_evidence(trace.trace_id@, group, threshold as nat),
        ),
{
    let pools = saturated_services(trace, threshold as usize);
    let ghost groups = pool_groups(trace.spans@, pools@);
    let mut out: Vec<(Finding, Vec<&'a str>)> = Vec::new();
    let mut k: usize = 0;
    while k < pools.len()
        invariant
            k <= pools@.len(),
            groups == pool_groups(trace.spans@, pools@),
            forall|m: int|
                0 <= m < pools@.len() ==> grouping::ascending_positions(
                    (#[trigger] pools@[m]).indices@,
                    trace.spans@.len(),
                ) && pools@[m].indices@.len() > 0 && pools@[m].peak == peak_concurrency(
                    grouping::at_positions(trace.spans@, pools@[m].indices@),
                ),
            out@.len() == k,
            forall|m: int|
                0 <= m < k ==> redundant::evidence_view(#[trigger] out@[m]) == (
                    saturation_finding(
                        trace.trace_id@,
                        groups[m],
                        peak_concurrency(groups[m]),
                    ),
                    redundant::span_ids(peak_members(groups[m])),
                ),
        decreases pools@.len() - k,
    {
        assert(groups[k as int] == grouping::at_positions(
            trace.spans@,
            pools@[k as int].indices@,
        ));
        let finding = build_saturation_finding(trace, &pools[k].indices, pools[k].peak);
        let ids = peak_span_ids(trace, &pools[k].indices);
        out.push((finding, ids));
        k += 1;
    }
    proof {
        lemma_findings_of_pools(
            grouping::groups(SqlPools {  }, trace.spans@),
            trace.trace_id@,
            threshold as nat,
        );
        assert(redundant::evidence_views(out@) =~= groups.map_values(
            |group: Seq<NormalizedEvent>|
                (
                    saturation_finding(trace.trace_id@, group, peak_concurrency(group)),
                    redundant::span_ids(peak_members(group)),
                ),
        ));
    }
    out
}

proof fn lemma_running_spans(group: Seq<NormalizedEvent>, t: u64)
    requires
        t < u64::MAX,
    ensures
        group.filter(
            |s: NormalizedEvent|
                time::timestamp_ms(s.event.timestamp@) is Some && 1000 * time::timestamp_ms(
                    s.event.timestamp@,
                )->0 <= t < 1000 * time::timestamp_ms(s.event.timestamp@)->0
                    + s.event.duration_us,
        ) == group.filter(span_runs_at(t)),
        group.filter(span_runs_at(t)).len() == running_count(n_plus_one::group_bounds(group), t),
{
    let runs = |s: NormalizedEvent|
        time::timestamp_ms(s.event.timestamp@) is Some && 1000 * time::timestamp_ms(
            s.event.timestamp@,
        )->0 <= t < 1000 * time::timestamp_ms(s.event.timestamp@)->0 + s.event.duration_us;
    assert forall|s: NormalizedEvent| group.contains(s) implies (#[trigger] runs(s)
        == span_runs_at(t)(s)) by {
        n_plus_one::law_span_lasts_for_its_duration(s);
    }
    permutation::lemma_filter_same(group, runs, span_runs_at(t));
    lemma_members_counted(group, t);
}

/// A span runs from its start for the whole of its duration: at no instant do more of them run than
/// the peak says.
pub proof fn law_never_more_spans_run_than_the_peak(group: Seq<NormalizedEvent>, t: u64)
    requires
        t < u64::MAX,
    ensures
        group.filter(
            |s: NormalizedEvent|
                time::timestamp_ms(s.event.timestamp@) is Some && 1000 * time::timestamp_ms(
                    s.event.timestamp@,
                )->0 <= t < 1000 * time::timestamp_ms(s.event.timestamp@)->0
                    + s.event.duration_us,
        ).len() <= peak_concurrency(group),
{
    lemma_running_spans(group, t);
    law_peak_is_reached_and_never_exceeded(n_plus_one::group_bounds(group));
}

/// At some instant as many spans run as the peak says; the evidence names the spans that run at the
/// first such instant, and none where no span ever runs. At an earlier instant `u` fewer spans run.
pub proof fn law_peak_is_reached_at_the_instant_of_the_evidence(
    group: Seq<NormalizedEvent>,
    u: u64,
) -> (t: u64)
    ensures
        t < u64::MAX,
        ({
            let running = group.filter(
                |s: NormalizedEvent|
                    time::timestamp_ms(s.event.timestamp@) is Some && 1000 * time::timestamp_ms(
                        s.event.timestamp@,
                    )->0 <= t < 1000 * time::timestamp_ms(s.event.timestamp@)->0
                        + s.event.duration_us,
            );
            &&& running.len() == peak_concurrency(group)
            &&& peak_members(group) == running
        }),
        u < t ==> group.filter(
            |s: NormalizedEvent|
                time::timestamp_ms(s.event.timestamp@) is Some && 1000 * time::timestamp_ms(
                    s.event.timestamp@,
                )->0 <= u < 1000 * time::timestamp_ms(s.event.timestamp@)->0
                    + s.event.duration_us,
        ).len() < peak_concurrency(group),
{
    let bounds = n_plus_one::group_bounds(group);
    law_peak_is_reached_and_never_exceeded(bounds);
    let at = choose|t: u64| #[trigger] running_count(bounds, t) == peak_of(bounds);
    lemma_first_peak_exists(bounds, at);
    let t = first_peak_of(bounds);
    if t == u64::MAX {
        let test = running(t);
        permutation::lemma_count_none(bounds, test);
        assert(running_count(bounds, 0) < peak_of(bounds));
    }
    lemma_running_spans(group, t);
    if u < t {
        lemma_running_spans(group, u);
    }
    if peak_concurrency(group) == 0 {
        assert(group.filter(span_runs_at(t)) =~= Seq::empty());
    }
    t
}

/// Spans that start at the same instant and take any time at all run at once.
pub proof fn law_spans_with_one_start_run_at_once(group: Seq<NormalizedEvent>, start_ms: u64)
    requires
        forall|i: int|
            0 <= i < group.len() ==> time::timestamp_ms((#[trigger] group[i]).event.timestamp@)
                == Some(start_ms) && group[i].event.duration_us > 0,
    ensures
        peak_concurrency(group) == group.len(),
{
    let bounds = n_plus_one::group_bounds(group);
    law_peak_is_reached_and_never_exceeded(bounds);
    n_plus_one::lemma_bounds_number(group);
    if group.len() > 0 {
        let first = group[0].event.timestamp@;
        time::law_timestamps_end_with_the_year_9999(first);
        let t = (1000 * start_ms) as u64;
        let runs = |s: NormalizedEvent|
            time::timestamp_ms(s.event.timestamp@) is Some && 1000 * time::timestamp_ms(
                s.event.timestamp@,
            )->0 <= t < 1000 * time::timestamp_ms(s.event.timestamp@)->0 + s.event.duration_us;
        law_never_more_spans_run_than_the_peak(group, t);
        permutation::lemma_count_filter(group, runs);
        permutation::lemma_count_all(group, runs);
    }
}

/// The evidence of a finding names as many spans as the finding counts: those that run at the first
/// instant at which so many run.
pub proof fn law_evidence_names_the_running_spans(
    trace_id: Seq<char>,
    group: Seq<NormalizedEvent>,
    threshold: nat,
) -> (t: u64)
    ensures
        ({
            let found = pool_finding(trace_id, group, threshold);
            let told = pool_evidence(trace_id, group, threshold);
            &&& told is Some <==> found is Some
            &&& found is Some ==> (told->0).0 == found->0
            &&& found is Some ==> (told->0).1.len() == found->0.pattern.occurrences
            &&& found is Some ==> (told->0).1 == group.filter(
                |s: NormalizedEvent|
                    time::timestamp_ms(s.event.timestamp@) is Some && 1000 * time::timestamp_ms(
                        s.event.timestamp@,
                    )->0 <= t < 1000 * time::timestamp_ms(s.event.timestamp@)->0
                        + s.event.duration_us,
            ).map_values(|s: NormalizedEvent| s.event.span_id@)
        }),
{
    let t = law_peak_is_reached_at_the_instant_of_the_evidence(group, 0);
    let members = peak_members(group);
    assert(redundant::span_ids(members) =~= members.map_values(
        |s: NormalizedEvent| s.event.span_id@,
    ));
    t
}

} // verus!

//! What the correlator reports, told by the matches that led to it.

use crate::detect::correlate_cross;
use crate::detect::correlate_cross::endpoint;
use crate::detect::correlate_cross::endpoint::EndpointView;
use crate::detect::correlate_cross::grid::HalfWindowCount;
use crate::detect::correlate_cross::laws;
use crate::detect::correlate_cross::pair;
use crate::detect::correlate_cross::pair::PairKeyView;
use crate::detect::correlate_cross::{
    CorrelationConfig, CorrelationEndpoint, CorrelationView, CorrelatorView, CrossTraceCorrelation,
    CrossTraceCorrelator, EndpointCountView, OccurrenceView, PairView, Pairing, Ratio, RefusedView,
};
use crate::detect::{Finding, FindingView};
use crate::permutation;
use crate::text;
use crate::time;
use vstd::prelude::*;

verus! {

/// A finding occurs at its first timestamp, or at its ingest where that cannot be read, for its
/// type, service, template and first grouping attribute. Its trace id is cut after 128 bytes.
pub proof fn law_occurrence_on_the_finding(f: Finding, now_ms: u64, now_idx: u64)
    ensures
        correlate_cross::occurrence_of(f@, now_ms, now_idx) == (OccurrenceView {
            endpoint: EndpointView {
                finding_type: f.finding_type,
                service: f.service@,
                template: f.pattern.template@,
                grouping_key: if f.grouping@.len() > 0 {
                    Some(f.grouping@[0].key@)
                } else {
                    None
                },
                grouping_value: if f.grouping@.len() > 0 {
                    Some(f.grouping@[0].value@)
                } else {
                    None
                },
            },
            event_ms: if time::timestamp_ms(f.first_timestamp@) is Some {
                time::timestamp_ms(f.first_timestamp@)->0
            } else {
                now_ms
            },
            ingest_ms: now_ms,
            ingest_idx: now_idx,
            trace_id: text::utf8_prefix(f.trace_id@, 128),
            counted_targets: Seq::empty(),
        }),
{
}

/// A report is about a tracked pair. It counts how often the pair and its source occurred in the
/// window, names the instants of the pair's first and latest match and the traces of the latest,
/// and there is one if and only if the counts pass the thresholds.
pub proof fn law_report_tells_the_pair(s: CorrelatorView, config: CorrelationConfig, i: int)
    requires
        0 <= i < s.pairs.len(),
        laws::pairs_apart(s.pairs),
    ensures
        ({
            let p = s.pairs[i];
            let found = correlate_cross::correlations(s, config);
            let co = p.state.co.in_window(s.now_idx);
            let total = correlate_cross::count_of(s.endpoints, p.key.source).in_window(s.now_idx);
            let least = if co < total {
                co
            } else {
                total
            };
            let reported = co >= config.min_co_occurrences && total > 0 && least
                * config.min_confidence.denominator >= config.min_confidence.numerator * total;
            let expected = CorrelationView {
                source: p.key.source,
                target: p.key.target,
                co_occurrence_count: co,
                source_total_occurrences: total,
                confidence: Ratio { numerator: least as u64, denominator: total as u64 },
                twice_median_lag_ms: pair::twice_median(p.state.lags_ms),
                first_seen: time::iso8601_of(p.state.first_seen_ms),
                last_seen: time::iso8601_of(p.state.last_seen_ms),
                sample_trace_id: p.state.last_trace_id,
                source_sample_trace_id: p.state.last_source_trace_id,
            };
            &&& reported <==> found.contains(expected)
            &&& forall|c: CorrelationView| #[trigger]
                found.contains(c) && c.source == p.key.source && c.target == p.key.target ==> c
                    == expected
        }),
{
    let f = |p: PairView| correlate_cross::correlation_of(s, p, config);
    let found = correlate_cross::correlations(s, config);
    assert forall|c: CorrelationView| #[trigger]
        found.contains(c) && c.source == s.pairs[i].key.source && c.target
            == s.pairs[i].key.target implies f(s.pairs[i]) == Some(c) by {
        permutation::lemma_filter_map_contains(s.pairs, f, c);
        let k = choose|k: int| 0 <= k < s.pairs.len() && f(#[trigger] s.pairs[k]) == Some(c);
        assert(s.pairs[k].key == s.pairs[i].key);
        assert(k == i);
    }
    if let Some(c) = f(s.pairs[i]) {
        permutation::lemma_filter_map_contains(s.pairs, f, c);
    }
}

proof fn lemma_tracked_at(pairs: Seq<PairView>, key: PairKeyView, k: int)
    requires
        laws::pairs_apart(pairs),
        0 <= k < pairs.len(),
        pairs[k].key == key,
    ensures
        correlate_cross::pair_position(pairs, key) == k,
{
    laws::lemma_pair_found(pairs, key);
    let at = correlate_cross::pair_position(pairs, key);
    if at < k {
        assert(pairs[at].key != pairs[k].key);
    }
}

proof fn lemma_untracked(pairs: Seq<PairView>, key: PairKeyView)
    requires
        forall|k: int| 0 <= k < pairs.len() ==> (#[trigger] pairs[k]).key != key,
    ensures
        correlate_cross::pair_position(pairs, key) == pairs.len(),
{
    laws::lemma_pair_found(pairs, key);
    let at = correlate_cross::pair_position(pairs, key);
    if at < pairs.len() {
        assert(pairs[at].key == key);
    }
}

/// Two findings match if and only if their events are no further apart than the lag threshold, they
/// are of different services and of one grouping. Any other two leave everything as it was.
pub proof fn law_only_near_findings_match(
    p: Pairing,
    i: int,
    now_ms: u64,
    config: CorrelationConfig,
)
    ensures
        ({
            let (o, x) = (p.occurrences[i], p.incoming);
            let near = o.event_ms - x.event_ms <= config.lag_threshold_ms && x.event_ms
                - o.event_ms <= config.lag_threshold_ms;
            let pairable = o.endpoint.service != x.endpoint.service && o.endpoint.grouping_key
                == x.endpoint.grouping_key && o.endpoint.grouping_value
                == x.endpoint.grouping_value;
            &&& p.matches_at(i, config) <==> near && pairable
            &&& !(near && pairable) ==> p.held_against(i, now_ms, config) == p
        }),
{
}

/// The first match of two findings creates their pair, led by the finding whose event is earlier
/// (by the one that was there, where the events are at one instant), with the instant of the match
/// as its first and latest one. At the cap it is refused instead.
pub proof fn law_first_match_creates_the_pair(
    p: Pairing,
    i: int,
    now_ms: u64,
    config: CorrelationConfig,
)
    requires
        p.matches_at(i, config),
        ({
            let (o, x) = (p.occurrences[i], p.incoming);
            let (source, target) = if x.event_ms < o.event_ms {
                (x, o)
            } else {
                (o, x)
            };
            forall|k: int|
                0 <= k < p.pairs.len() ==> (#[trigger] p.pairs[k]).key != (PairKeyView {
                    source: source.endpoint,
                    target: target.endpoint,
                })
        }),
    ensures
        ({
            let (o, x) = (p.occurrences[i], p.incoming);
            let (source, target) = if x.event_ms < o.event_ms {
                (x, o)
            } else {
                (o, x)
            };
            let key = PairKeyView { source: source.endpoint, target: target.endpoint };
            let after = p.held_against(i, now_ms, config);
            let q = after.pairs.last();
            let repeat = source.counted_targets.contains(target.endpoint);
            if p.pairs.len() >= config.max_tracked_pairs {
                after == Pairing { refused: p.refused.recorded(key), ..p }
            } else {
                &&& after.pairs.len() == p.pairs.len() + 1
                &&& after.pairs.drop_last() == p.pairs
                &&& after.refused == p.refused
                &&& q.key == key
                &&& q.state.first_seen_ms == now_ms
                &&& q.state.last_seen_ms == now_ms
                &&& q.state.last_source_trace_id == pair::sample_after(None, source.trace_id)
                &&& q.state.last_trace_id == pair::sample_after(None, target.trace_id)
                &&& repeat ==> q.state.lags_ms == Seq::<u64>::empty() && q.state.co
                    == HalfWindowCount::zero()
                &&& !repeat ==> q.state.lags_ms == seq![(target.event_ms - source.event_ms) as u64]
                    && q.state.co == HalfWindowCount::zero().counted(source.ingest_idx)
            }
        }),
{
    lemma_untracked(p.pairs, p.key(i));
    let after = p.held_against(i, now_ms, config);
    if p.pairs.len() < config.max_tracked_pairs {
        assert(after.pairs.drop_last() =~= p.pairs);
        let q = after.pairs.last();
        if !p.is_repeat(i) {
            assert(q.state.lags_ms =~= seq![(p.target(i).event_ms - p.source(i).event_ms) as u64]);
        }
    }
}

/// A further match of a tracked pair moves the instant of its latest match and leaves that of its
/// first match and every other pair alone. It counts, in the bucket of the source's own ingest,
/// unless the source counted for the target before.
pub proof fn law_further_match_keeps_the_first_instant(
    p: Pairing,
    i: int,
    k: int,
    now_ms: u64,
    config: CorrelationConfig,
)
    requires
        p.matches_at(i, config),
        laws::pairs_apart(p.pairs),
        0 <= k < p.pairs.len(),
        ({
            let (o, x) = (p.occurrences[i], p.incoming);
            p.pairs[k].key == if x.event_ms < o.event_ms {
                (PairKeyView { source: x.endpoint, target: o.endpoint })
            } else {
                (PairKeyView { source: o.endpoint, target: x.endpoint })
            }
        }),
    ensures
        ({
            let (o, x) = (p.occurrences[i], p.incoming);
            let (source, target) = if x.event_ms < o.event_ms {
                (x, o)
            } else {
                (o, x)
            };
            let after = p.held_against(i, now_ms, config);
            let was = p.pairs[k].state;
            let q = after.pairs[k].state;
            let repeat = source.counted_targets.contains(target.endpoint);
            &&& after.pairs.len() == p.pairs.len()
            &&& after.refused == p.refused
            &&& forall|m: int|
                0 <= m < p.pairs.len() && m != k ==> #[trigger] after.pairs[m] == p.pairs[m]
            &&& after.pairs[k].key == p.pairs[k].key
            &&& q.first_seen_ms == was.first_seen_ms
            &&& q.last_seen_ms == now_ms
            &&& q.last_source_trace_id == pair::sample_after(
                was.last_source_trace_id,
                source.trace_id,
            )
            &&& q.last_trace_id == pair::sample_after(was.last_trace_id, target.trace_id)
            &&& q.co == if repeat {
                was.co
            } else {
                was.co.counted(source.ingest_idx)
            }
            &&& repeat ==> q.lags_ms == was.lags_ms && q.total_observations
                == was.total_observations
            &&& !repeat ==> q.lags_ms == was.with_lag(
                (target.event_ms - source.event_ms) as u64,
            ).lags_ms
        }),
{
    lemma_tracked_at(p.pairs, p.key(i), k);
}

/// A match marks the source, and no other occurrence, as counted for the target; what an occurrence
/// is stays as it is.
pub proof fn law_match_marks_the_source(p: Pairing, i: int, now_ms: u64, config: CorrelationConfig)
    requires
        0 <= i < p.occurrences.len(),
    ensures
        ({
            let after = p.held_against(i, now_ms, config);
            let (o, x) = (p.occurrences[i], p.incoming);
            &&& after.occurrences.len() == p.occurrences.len()
            &&& forall|m: int|
                0 <= m < p.occurrences.len() && m != i ==> #[trigger] after.occurrences[m]
                    == p.occurrences[m]
            &&& after.occurrences[i] == OccurrenceView {
                counted_targets: after.occurrences[i].counted_targets,
                ..o
            }
            &&& after.incoming == OccurrenceView {
                counted_targets: after.incoming.counted_targets,
                ..x
            }
            &&& forall|e: EndpointView|
                {
                    &&& #[trigger] after.occurrences[i].counted_targets.contains(e)
                        ==> o.counted_targets.contains(e) || (e == x.endpoint && o.event_ms
                        <= x.event_ms)
                    &&& o.counted_targets.contains(e) ==> after.occurrences[i].counted_targets.contains(e)
                }
            &&& forall|e: EndpointView|
                {
                    &&& #[trigger] after.incoming.counted_targets.contains(e)
                        ==> x.counted_targets.contains(e) || (e == o.endpoint && x.event_ms
                        < o.event_ms)
                    &&& x.counted_targets.contains(e) ==> after.incoming.counted_targets.contains(e)
                }
        }),
{
    let after = p.held_against(i, now_ms, config);
    let (o, x) = (p.occurrences[i], p.incoming);
    assert forall|e: EndpointView|
        {
            &&& #[trigger] after.occurrences[i].counted_targets.contains(e)
                ==> o.counted_targets.contains(e) || (e == x.endpoint && o.event_ms <= x.event_ms)
            &&& o.counted_targets.contains(e) ==> after.occurrences[i].counted_targets.contains(e)
        } by {
        if o.counted_targets.contains(e) {
            let m = choose|m: int| 0 <= m < o.counted_targets.len() && o.counted_targets[m] == e;
            assert(after.occurrences[i].counted_targets[m] == e);
        }
    }
    assert forall|e: EndpointView|
        {
            &&& #[trigger] after.incoming.counted_targets.contains(e)
                ==> x.counted_targets.contains(e) || (e == o.endpoint && x.event_ms < o.event_ms)
            &&& x.counted_targets.contains(e) ==> after.incoming.counted_targets.contains(e)
        } by {
        if x.counted_targets.contains(e) {
            let m = choose|m: int| 0 <= m < x.counted_targets.len() && x.counted_targets[m] == e;
            assert(after.incoming.counted_targets[m] == e);
        }
    }
}

/// Whether the pairs that were there keep their first instant, and the others start now.
spec fn carried(before: Seq<PairView>, after: Seq<PairView>, now_ms: u64) -> bool {
    &&& before.len() <= after.len()
    &&& forall|k: int|
        0 <= k < before.len() ==> (#[trigger] after[k]).key == before[k].key
            && after[k].state.first_seen_ms == before[k].state.first_seen_ms && (
        after[k].state.last_seen_ms == before[k].state.last_seen_ms || after[k].state.last_seen_ms
            == now_ms)
    &&& forall|k: int|
        before.len() <= k < after.len() ==> (#[trigger] after[k]).state.first_seen_ms == now_ms
            && after[k].state.last_seen_ms == now_ms
}

proof fn lemma_carried_step(
    before: Seq<PairView>,
    p: Pairing,
    i: int,
    now_ms: u64,
    config: CorrelationConfig,
)
    requires
        carried(before, p.pairs, now_ms),
    ensures
        carried(before, p.held_against(i, now_ms, config).pairs, now_ms),
        carried(p.pairs, p.held_against(i, now_ms, config).pairs, now_ms),
{
    laws::lemma_pair_found(p.pairs, p.key(i));
    let after = p.held_against(i, now_ms, config).pairs;
    assert forall|k: int| 0 <= k < p.pairs.len() implies (#[trigger] after[k]).key
        == p.pairs[k].key && after[k].state.first_seen_ms == p.pairs[k].state.first_seen_ms && (
    after[k].state.last_seen_ms == p.pairs[k].state.last_seen_ms || after[k].state.last_seen_ms
        == now_ms) by {}
    assert forall|k: int| 0 <= k < before.len() implies (#[trigger] after[k]).key == before[k].key
        && after[k].state.first_seen_ms == before[k].state.first_seen_ms && (
    after[k].state.last_seen_ms == before[k].state.last_seen_ms || after[k].state.last_seen_ms
        == now_ms) by {
        assert(p.pairs[k].key == before[k].key);
    }
    assert forall|k: int| before.len() <= k < after.len() implies (
    #[trigger] after[k]).state.first_seen_ms == now_ms && after[k].state.last_seen_ms
        == now_ms by {
        if k < p.pairs.len() {
            assert(p.pairs[k].state.first_seen_ms == now_ms);
        }
    }
}

proof fn lemma_carried_held(p: Pairing, n: nat, now_ms: u64, config: CorrelationConfig)
    requires
        n <= p.occurrences.len(),
    ensures
        carried(p.pairs, p.held_against_first(n, now_ms, config).pairs, now_ms),
        ({
            let r = p.held_against_first(n, now_ms, config);
            &&& r.occurrences.len() == p.occurrences.len()
            &&& r.incoming.event_ms == p.incoming.event_ms
            &&& r.incoming.endpoint == p.incoming.endpoint
            &&& forall|m: int|
                0 <= m < p.occurrences.len() ==> (#[trigger] r.occurrences[m]).event_ms
                    == p.occurrences[m].event_ms && r.occurrences[m].endpoint
                    == p.occurrences[m].endpoint
        }),
    decreases n,
{
    if n > 0 {
        lemma_carried_held(p, (n - 1) as nat, now_ms, config);
        let q = p.held_against_first((n - 1) as nat, now_ms, config);
        lemma_carried_step(p.pairs, q, n - 1, now_ms, config);
        law_match_marks_the_source(q, n - 1, now_ms, config);
        let r = p.held_against_first(n, now_ms, config);
        assert forall|m: int| 0 <= m < p.occurrences.len() implies (
        #[trigger] r.occurrences[m]).event_ms == p.occurrences[m].event_ms
            && r.occurrences[m].endpoint == p.occurrences[m].endpoint by {
            assert(q.occurrences[m].event_ms == p.occurrences[m].event_ms);
            if m == n - 1 {
                assert(r.occurrences[m].event_ms == q.occurrences[m].event_ms);
            }
        }
    }
}

proof fn lemma_carried_absorbed(
    s: CorrelatorView,
    findings: Seq<FindingView>,
    now_ms: u64,
    config: CorrelationConfig,
)
    ensures
        carried(
            s.pairs,
            correlate_cross::absorbed_all(s, findings, now_ms, config).0.pairs,
            now_ms,
        ),
    decreases findings.len(),
{
    if findings.len() > 0 {
        lemma_carried_absorbed(s, findings.drop_last(), now_ms, config);
        let (before, refused) = correlate_cross::absorbed_all(
            s,
            findings.drop_last(),
            now_ms,
            config,
        );
        let f = findings.last();
        let known = before.interned(endpoint::endpoint_of(f));
        let start = Pairing {
            occurrences: known.occurrences,
            incoming: correlate_cross::occurrence_of(f, now_ms, known.now_idx),
            pairs: known.pairs,
            refused,
        };
        lemma_carried_held(start, known.occurrences.len(), now_ms, config);
        let after = correlate_cross::absorbed_all(s, findings, now_ms, config).0.pairs;
        assert(carried(before.pairs, after, now_ms));
        assert forall|k: int| 0 <= k < s.pairs.len() implies (#[trigger] after[k]).key
            == s.pairs[k].key && after[k].state.first_seen_ms == s.pairs[k].state.first_seen_ms && (
        after[k].state.last_seen_ms == s.pairs[k].state.last_seen_ms
            || after[k].state.last_seen_ms == now_ms) by {
            assert(before.pairs[k].key == s.pairs[k].key);
        }
        assert forall|k: int| s.pairs.len() <= k < after.len() implies (
        #[trigger] after[k]).state.first_seen_ms == now_ms && after[k].state.last_seen_ms
            == now_ms by {
            if k < before.pairs.len() {
                assert(before.pairs[k].state.first_seen_ms == now_ms);
            }
        }
    }
}

/// After a batch a pair was tracked before, matched within the window, and keeps the instant of its
/// first match, its latest one being as before or now; or it was not, and both are now.
pub proof fn law_pairs_keep_their_first_instant(
    s: CorrelatorView,
    findings: Seq<FindingView>,
    now_ms: u64,
    config: CorrelationConfig,
    i: int,
)
    requires
        laws::consistent(s, config),
        0 <= i < correlate_cross::ingested(s, findings, now_ms, config).0.pairs.len(),
    ensures
        ({
            let q = correlate_cross::ingested(s, findings, now_ms, config).0.pairs[i];
            ||| exists|j: int|
                0 <= j < s.pairs.len() && (#[trigger] s.pairs[j]).key == q.key
                    && s.pairs[j].state.last_seen_ms + config.window_ms >= now_ms
                    && q.state.first_seen_ms == s.pairs[j].state.first_seen_ms && (
                q.state.last_seen_ms == s.pairs[j].state.last_seen_ms || q.state.last_seen_ms
                    == now_ms)
            ||| q.state.first_seen_ms == now_ms && q.state.last_seen_ms == now_ms && forall|j: int|
                0 <= j < s.pairs.len() && (#[trigger] s.pairs[j]).key == q.key
                    ==> s.pairs[j].state.last_seen_ms + config.window_ms < now_ms
        }),
{
    let swept = s.advanced(now_ms, config).in_horizon(now_ms, config).in_window(
        now_ms,
        config,
    ).pruned();
    laws::lemma_swept(s, now_ms, config);
    laws::lemma_absorbed_all(swept, findings, now_ms, config);
    lemma_carried_absorbed(swept, findings, now_ms, config);
    let (held, refused) = correlate_cross::absorbed_all(swept, findings, now_ms, config);
    let t = correlate_cross::ingested(s, findings, now_ms, config).0;
    let q = t.pairs[i];
    let n = correlate_cross::to_evict(held.pairs.len(), config);
    assert(held.pairs.contains(q)) by {
        if refused.count() > 0 && n > 0 {
            let threshold = crate::order::ranked(
                correlate_cross::ranks(held.pairs, held.now_idx),
            )[n - 1];
            let lower = permutation::count_if(
                correlate_cross::ranks(held.pairs, held.now_idx),
                correlate_cross::below(threshold),
            );
            laws::lemma_survivors_stay(held.pairs, held.now_idx, threshold, (n - lower) as nat);
            assert(held.pairs.contains(t.pairs[i]));
        } else {
            assert(held.pairs[i] == q);
        }
    }
    let m = choose|m: int| 0 <= m < held.pairs.len() && held.pairs[m] == q;
    let live = |p: PairView| p.state.last_seen_ms + config.window_ms >= now_ms;
    assert(swept.pairs == s.pairs.filter(live));
    if m < swept.pairs.len() {
        assert(swept.pairs.contains(swept.pairs[m]));
        permutation::lemma_filter_contains(s.pairs, live, swept.pairs[m]);
        let j = choose|j: int| 0 <= j < s.pairs.len() && s.pairs[j] == swept.pairs[m];
        assert(s.pairs[j].key == q.key);
    } else {
        assert forall|j: int| 0 <= j < s.pairs.len() && (#[trigger] s.pairs[j]).key
            == q.key implies s.pairs[j].state.last_seen_ms + config.window_ms < now_ms by {
            if live(s.pairs[j]) {
                assert(s.pairs.contains(s.pairs[j]));
                permutation::lemma_filter_contains(s.pairs, live, s.pairs[j]);
                let x = choose|x: int| 0 <= x < swept.pairs.len() && swept.pairs[x] == s.pairs[j];
                assert(held.pairs[x].key == swept.pairs[x].key);
                assert(held.pairs[x].key != held.pairs[m].key);
            }
        }
    }
}

/// On a clock that does not run backwards, no pair's first match is after its latest one, nor its
/// latest one in the future.
pub proof fn law_first_match_is_not_after_the_latest(
    s: CorrelatorView,
    findings: Seq<FindingView>,
    now_ms: u64,
    config: CorrelationConfig,
    i: int,
)
    requires
        laws::consistent(s, config),
        forall|j: int|
            0 <= j < s.pairs.len() ==> (#[trigger] s.pairs[j]).state.first_seen_ms
                <= s.pairs[j].state.last_seen_ms <= now_ms,
        0 <= i < correlate_cross::ingested(s, findings, now_ms, config).0.pairs.len(),
    ensures
        ({
            let q = correlate_cross::ingested(s, findings, now_ms, config).0.pairs[i].state;
            q.first_seen_ms <= q.last_seen_ms <= now_ms
        }),
{
    law_pairs_keep_their_first_instant(s, findings, now_ms, config, i);
}

proof fn lemma_marked(
    p: Pairing,
    n: nat,
    i: int,
    k: int,
    now_ms: u64,
    config: CorrelationConfig,
)
    requires
        0 <= i < n <= p.occurrences.len(),
        p.matches_at(i, config),
        0 <= k < p.pairs.len(),
        p.pairs[k].key == p.key(i),
        laws::pairs_apart(p.pairs),
    ensures
        p.held_against_first(n, now_ms, config).pairs[k].state.last_seen_ms == now_ms,
    decreases n,
{
    let q = p.held_against_first((n - 1) as nat, now_ms, config);
    lemma_carried_held(p, (n - 1) as nat, now_ms, config);
    if i < n - 1 {
        lemma_marked(p, (n - 1) as nat, i, k, now_ms, config);
        lemma_carried_step(q.pairs, q, n - 1, now_ms, config);
        assert(p.held_against_first(n, now_ms, config).pairs[k].key == q.pairs[k].key);
    } else {
        assert(q.occurrences[i].event_ms == p.occurrences[i].event_ms);
        assert(q.pairs[k].key == p.pairs[k].key);
        assert(q.matches_at(i, config));
        assert(q.key(i) == p.key(i));
        laws::lemma_pair_found(q.pairs, q.key(i));
        let at = correlate_cross::pair_position(q.pairs, q.key(i));
        if at < k {
            assert(q.pairs[at].key == p.pairs[at].key);
            assert(p.pairs[at].key != p.pairs[k].key);
        }
        assert(at == k);
    }
}

/// A finding that matches an occurrence of a tracked pair makes the instant of its ingest that of
/// the pair's latest match: a report on a pair first matched at one instant and then at another one
/// names the two.
pub proof fn law_match_moves_the_latest_instant(
    s: CorrelatorView,
    refused: RefusedView,
    f: FindingView,
    now_ms: u64,
    config: CorrelationConfig,
    i: int,
    k: int,
)
    requires
        laws::pairs_apart(s.pairs),
        0 <= i < s.occurrences.len(),
        0 <= k < s.pairs.len(),
        ({
            let x = correlate_cross::occurrence_of(f, now_ms, s.now_idx);
            let o = s.occurrences[i];
            &&& o.event_ms - x.event_ms <= config.lag_threshold_ms
            &&& x.event_ms - o.event_ms <= config.lag_threshold_ms
            &&& o.endpoint.service != x.endpoint.service
            &&& o.endpoint.grouping_key == x.endpoint.grouping_key
            &&& o.endpoint.grouping_value == x.endpoint.grouping_value
            &&& s.pairs[k].key == if x.event_ms < o.event_ms {
                (PairKeyView { source: x.endpoint, target: o.endpoint })
            } else {
                (PairKeyView { source: o.endpoint, target: x.endpoint })
            }
        }),
    ensures
        ({
            let after = correlate_cross::absorbed(s, refused, f, now_ms, config).0;
            let c = correlate_cross::correlation_of(after, after.pairs[k], config);
            &&& k < after.pairs.len()
            &&& after.pairs[k].key == s.pairs[k].key
            &&& after.pairs[k].state.first_seen_ms == s.pairs[k].state.first_seen_ms
            &&& after.pairs[k].state.last_seen_ms == now_ms
            &&& c is Some ==> c->0.first_seen == time::iso8601_of(s.pairs[k].state.first_seen_ms)
            &&& c is Some ==> c->0.last_seen == time::iso8601_of(now_ms)
        }),
{
    let known = s.interned(endpoint::endpoint_of(f));
    let start = Pairing {
        occurrences: known.occurrences,
        incoming: correlate_cross::occurrence_of(f, now_ms, known.now_idx),
        pairs: known.pairs,
        refused,
    };
    let n = known.occurrences.len();
    lemma_carried_held(start, n, now_ms, config);
    lemma_marked(start, n, i, k, now_ms, config);
}

/// The rendered instants of a report read back: those of the pair's first and latest match.
pub proof fn law_report_names_the_instants(
    s: CorrelatorView,
    config: CorrelationConfig,
    i: int,
    c: CorrelationView,
)
    requires
        0 <= i < s.pairs.len(),
        correlate_cross::correlation_of(s, s.pairs[i], config) == Some(c),
        s.pairs[i].state.first_seen_ms < 253_402_300_800_000,
        s.pairs[i].state.last_seen_ms < 253_402_300_800_000,
    ensures
        time::timestamp_ms(c.first_seen) == Some(s.pairs[i].state.first_seen_ms),
        time::timestamp_ms(c.last_seen) == Some(s.pairs[i].state.last_seen_ms),
{
    time::law_rendered_milliseconds_read_back(s.pairs[i].state.first_seen_ms);
    time::law_rendered_milliseconds_read_back(s.pairs[i].state.last_seen_ms);
}

/// An eviction takes as many pairs as asked for, and none that counted more in the window than one
/// that stays, nor, of those that counted as much, one that matched later.
pub proof fn law_evicted_pairs_counted_least(
    pairs: Seq<PairView>,
    now_idx: u64,
    n: nat,
    gone: int,
    stays: int,
)
    requires
        laws::pairs_apart(pairs),
        0 < n <= pairs.len(),
        0 <= gone < pairs.len(),
        !correlate_cross::after_eviction(pairs, now_idx, n).contains(pairs[gone]),
        0 <= stays < correlate_cross::after_eviction(pairs, now_idx, n).len(),
    ensures
        ({
            let left = correlate_cross::after_eviction(pairs, now_idx, n);
            let (a, b) = (pairs[gone].state, left[stays].state);
            &&& left.len() == pairs.len() - n
            &&& pairs.contains(left[stays])
            &&& a.co.in_window(now_idx) < b.co.in_window(now_idx) || (a.co.in_window(now_idx)
                == b.co.in_window(now_idx) && a.last_seen_ms <= b.last_seen_ms)
        }),
{
    laws::law_eviction_takes_the_lowest(pairs, now_idx, n, gone, stays);
    correlate_cross::lemma_eviction_size(pairs, now_idx, n);
    let threshold = crate::order::ranked(correlate_cross::ranks(pairs, now_idx))[n - 1];
    let lower = permutation::count_if(
        correlate_cross::ranks(pairs, now_idx),
        correlate_cross::below(threshold),
    );
    laws::lemma_survivors_stay(pairs, now_idx, threshold, (n - lower) as nat);
}

/// A batch that loses pairs to the cap leaves nine tenths of the cap, and one pair less than the cap
/// where a tenth of it is none.
pub proof fn law_losses_leave_nine_tenths_of_the_cap(
    s: CorrelatorView,
    findings: Seq<FindingView>,
    now_ms: u64,
    config: CorrelationConfig,
)
    requires
        laws::consistent(s, config),
        config.max_tracked_pairs > 0,
        correlate_cross::ingested(s, findings, now_ms, config).1 > 0,
    ensures
        correlate_cross::ingested(s, findings, now_ms, config).0.pairs.len()
            == config.max_tracked_pairs - (if config.max_tracked_pairs >= 10 {
            config.max_tracked_pairs / 10
        } else {
            1
        }),
{
    let swept = s.advanced(now_ms, config).in_horizon(now_ms, config).in_window(
        now_ms,
        config,
    ).pruned();
    laws::lemma_swept(s, now_ms, config);
    laws::lemma_absorbed_all(swept, findings, now_ms, config);
    laws::lemma_refusals_at_the_cap(swept, findings, now_ms, config);
    let (held, refused) = correlate_cross::absorbed_all(swept, findings, now_ms, config);
    let n = correlate_cross::to_evict(held.pairs.len(), config);
    correlate_cross::lemma_eviction_size(held.pairs, held.now_idx, n);
}

proof fn lemma_all_kept<A>(s: Seq<A>, p: spec_fn(A) -> bool)
    requires
        forall|i: int| 0 <= i < s.len() ==> p(#[trigger] s[i]),
    ensures
        s.filter(p) == s,
    decreases s.len(),
{
    reveal(Seq::filter);
    if s.len() > 0 {
        let t = s.drop_last();
        assert forall|i: int| 0 <= i < t.len() implies p(#[trigger] t[i]) by {
            assert(t[i] == s[i]);
        }
        lemma_all_kept(t, p);
        assert(p(s[s.len() - 1]));
        assert(s =~= t.push(s.last()));
    } else {
        assert(s.filter(p) =~= s);
    }
}

proof fn lemma_near_kept(occurrences: Seq<OccurrenceView>, now_ms: u64, config: CorrelationConfig)
    requires
        forall|i: int, j: int|
            #![trigger occurrences[i], occurrences[j]]
            0 <= i < j < occurrences.len() ==> occurrences[i].ingest_ms
                <= occurrences[j].ingest_ms,
    ensures
        correlate_cross::without_stale(occurrences, config.reach(), now_ms) == occurrences.filter(
            |o: OccurrenceView|
                o.ingest_ms + config.lag_threshold_ms + config.ingest_skew_ms >= now_ms,
        ),
    decreases occurrences.len(),
{
    let near = |o: OccurrenceView|
        o.ingest_ms + config.lag_threshold_ms + config.ingest_skew_ms >= now_ms;
    if occurrences.len() == 0 {
        lemma_all_kept(occurrences, near);
    } else if near(occurrences[0]) {
        assert forall|i: int| 0 <= i < occurrences.len() implies near(
            #[trigger] occurrences[i],
        ) by {
            if i > 0 {
                assert(occurrences[0].ingest_ms <= occurrences[i].ingest_ms);
            }
        }
        lemma_all_kept(occurrences, near);
    } else {
        let rest = occurrences.drop_first();
        assert forall|i: int, j: int|
            #![trigger rest[i], rest[j]]
            0 <= i < j < rest.len() implies rest[i].ingest_ms <= rest[j].ingest_ms by {
            assert(rest[i] == occurrences[i + 1] && rest[j] == occurrences[j + 1]);
        }
        lemma_near_kept(rest, now_ms, config);
        let head = seq![occurrences[0]];
        assert(occurrences =~= head + rest);
        permutation::lemma_filter_add(head, rest, near);
        permutation::lemma_count_none(head, near);
        permutation::lemma_count_filter(head, near);
        assert(occurrences.filter(near) =~= rest.filter(near));
    }
}

/// After a batch the findings that can pair are those ingested no longer ago than the lag threshold
/// and the ingest skew together, and all of the batch.
pub proof fn law_recent_findings_can_pair(
    s: CorrelatorView,
    findings: Seq<FindingView>,
    now_ms: u64,
    config: CorrelationConfig,
)
    requires
        forall|i: int, j: int|
            #![trigger s.occurrences[i], s.occurrences[j]]
            0 <= i < j < s.occurrences.len() ==> s.occurrences[i].ingest_ms
                <= s.occurrences[j].ingest_ms,
    ensures
        correlate_cross::ingested(s, findings, now_ms, config).0.occurrences.map_values(
            |o: OccurrenceView| o.ingest_ms,
        ) == s.occurrences.filter(
            |o: OccurrenceView|
                o.ingest_ms + config.lag_threshold_ms + config.ingest_skew_ms >= now_ms,
        ).map_values(|o: OccurrenceView| o.ingest_ms) + Seq::new(findings.len(), |i: int| now_ms),
{
    let swept = s.advanced(now_ms, config).in_horizon(now_ms, config).in_window(
        now_ms,
        config,
    ).pruned();
    lemma_near_kept(s.occurrences, now_ms, config);
    laws::lemma_times_absorbed(swept, findings, now_ms, config);
    let held = correlate_cross::absorbed_all(swept, findings, now_ms, config).0;
    assert(laws::ingest_times(held.occurrences) =~= held.occurrences.map_values(
        |o: OccurrenceView| o.ingest_ms,
    ));
    assert(laws::ingest_times(swept.occurrences) =~= swept.occurrences.map_values(
        |o: OccurrenceView| o.ingest_ms,
    ));
}

/// A finding counts once for its own endpoint, in the current bucket, and for no other one.
pub proof fn law_finding_counts_for_its_endpoint(
    s: CorrelatorView,
    refused: RefusedView,
    f: FindingView,
    now_ms: u64,
    config: CorrelationConfig,
    e: EndpointView,
)
    requires
        laws::endpoints_apart(s.endpoints),
    ensures
        ({
            let after = correlate_cross::absorbed(s, refused, f, now_ms, config).0;
            let own = correlate_cross::occurrence_of(f, now_ms, s.now_idx).endpoint;
            let was = correlate_cross::count_of(s.endpoints, e);
            &&& after.now_idx == s.now_idx
            &&& correlate_cross::count_of(after.endpoints, e) == if e == own {
                was.counted(s.now_idx)
            } else {
                was
            }
        }),
{
    laws::lemma_interned_counts(s, endpoint::endpoint_of(f), e);
}

proof fn lemma_counted_as_listed(endpoints: Seq<EndpointCountView>, i: int)
    requires
        laws::endpoints_apart(endpoints),
        0 <= i < endpoints.len(),
    ensures
        correlate_cross::count_of(endpoints, endpoints[i].endpoint) == endpoints[i].count,
{
    laws::lemma_endpoint_found(endpoints, endpoints[i].endpoint);
    let at = correlate_cross::endpoint_position(endpoints, endpoints[i].endpoint);
    if at < i {
        assert(endpoints[at].endpoint != endpoints[i].endpoint);
    }
}

/// Endpoints that are dropped had nothing left in the window: no windowed count changes.
pub proof fn law_pruning_changes_no_windowed_count(s: CorrelatorView, e: EndpointView)
    requires
        laws::endpoints_apart(s.endpoints),
    ensures
        correlate_cross::count_of(s.pruned().endpoints, e).in_window(s.now_idx)
            == correlate_cross::count_of(s.endpoints, e).in_window(s.now_idx),
        s.pruned().pairs == s.pairs,
        s.pruned().occurrences == s.occurrences,
        s.pruned().now_idx == s.now_idx,
{
    if s.now_idx != s.pruned_idx {
        let all = s.endpoints;
        let kept = |x: EndpointCountView|
            x.count.in_window(s.now_idx) > 0 || correlate_cross::pinned(s, x.endpoint);
        let left = s.pruned().endpoints;
        assert(left == all.filter(kept));
        let apart = |a: EndpointCountView, b: EndpointCountView| a.endpoint != b.endpoint;
        permutation::lemma_pairwise_filter(all, apart, kept);
        laws::lemma_endpoint_found(all, e);
        laws::lemma_endpoint_found(left, e);
        let at = correlate_cross::endpoint_position(all, e);
        let now_at = correlate_cross::endpoint_position(left, e);
        if now_at < left.len() {
            assert(left.contains(left[now_at]));
            permutation::lemma_filter_contains(all, kept, left[now_at]);
            let i = choose|i: int| 0 <= i < all.len() && all[i] == left[now_at];
            lemma_counted_as_listed(all, i);
        } else if at < all.len() {
            if kept(all[at]) {
                assert(all.contains(all[at]));
                permutation::lemma_filter_contains(all, kept, all[at]);
                let i = choose|i: int| 0 <= i < left.len() && left[i] == all[at];
                assert(left[i].endpoint == e);
            }
        }
    }
}

/// The grid steps by half windows and never back: on a clock that has not run backwards, the current
/// step holds the instant.
pub proof fn law_grid_steps_by_half_windows(
    s: CorrelatorView,
    now_ms: u64,
    config: CorrelationConfig,
)
    requires
        config.window_ms >= 2,
        s.now_idx * (config.window_ms / 2) <= now_ms,
    ensures
        ({
            let half = config.window_ms / 2;
            let t = s.advanced(now_ms, config);
            &&& t.now_idx >= s.now_idx
            &&& t.now_idx * half <= now_ms < (t.now_idx + 1) * half
            &&& t.pairs == s.pairs
            &&& t.occurrences == s.occurrences
            &&& t.endpoints == s.endpoints
        }),
{
    let half = config.window_ms / 2;
    assert(config.half_window() == half);
    let idx = now_ms / half;
    let old = s.now_idx;
    assert(idx * half <= now_ms < (idx + 1) * half && (old * half <= now_ms ==> old <= idx))
        by (nonlinear_arith)
        requires
            half > 0,
            idx == now_ms / half,
    ;
}

/// Below the cap nothing is evicted. At the cap or above it, nine tenths of the cap are left, or one
/// pair less where that would evict none.
pub proof fn law_eviction_goes_down_to_nine_tenths(pairs: nat, config: CorrelationConfig)
    ensures
        pairs < config.max_tracked_pairs ==> correlate_cross::to_evict(pairs, config) == 0,
        pairs >= config.max_tracked_pairs && pairs > 0 ==> ({
            let left = pairs - correlate_cross::to_evict(pairs, config);
            let target = config.max_tracked_pairs - config.max_tracked_pairs / 10;
            left == if target < pairs {
                target
            } else {
                pairs - 1
            }
        }),
{
}

/// A correlator starts without findings, pairs or endpoints.
pub proof fn law_new_correlator_knows_nothing(config: CorrelationConfig)
    ensures
        CorrelatorView::empty().occurrences.len() == 0,
        CorrelatorView::empty().pairs.len() == 0,
        CorrelatorView::empty().endpoints.len() == 0,
        CorrelatorView::empty().now_idx == 0,
        correlate_cross::correlations(CorrelatorView::empty(), config).len() == 0,
{
}

/// A pair that matched within the window stays tracked through a batch that loses none to the cap.
pub proof fn law_live_pairs_stay_tracked(
    s: CorrelatorView,
    findings: Seq<FindingView>,
    now_ms: u64,
    config: CorrelationConfig,
    j: int,
) -> (i: int)
    requires
        0 <= j < s.pairs.len(),
        s.pairs[j].state.last_seen_ms + config.window_ms >= now_ms,
        correlate_cross::ingested(s, findings, now_ms, config).1 == 0,
    ensures
        ({
            let after = correlate_cross::ingested(s, findings, now_ms, config).0.pairs;
            &&& 0 <= i < after.len()
            &&& after[i].key == s.pairs[j].key
            &&& after[i].state.first_seen_ms == s.pairs[j].state.first_seen_ms
        }),
{
    let swept = s.advanced(now_ms, config).in_horizon(now_ms, config).in_window(
        now_ms,
        config,
    ).pruned();
    let live = |p: PairView| p.state.last_seen_ms + config.window_ms >= now_ms;
    assert(swept.pairs == s.pairs.filter(live));
    assert(s.pairs.contains(s.pairs[j]));
    permutation::lemma_filter_contains(s.pairs, live, s.pairs[j]);
    let i = choose|i: int| 0 <= i < swept.pairs.len() && swept.pairs[i] == s.pairs[j];
    lemma_carried_absorbed(swept, findings, now_ms, config);
    let held = correlate_cross::absorbed_all(swept, findings, now_ms, config).0;
    assert(held.pairs[i].key == swept.pairs[i].key);
    i
}

proof fn lemma_one_pair_more(p: Pairing, i: int, now_ms: u64, config: CorrelationConfig)
    ensures
        p.held_against(i, now_ms, config).pairs.len() <= p.pairs.len() + 1,
{
    laws::lemma_pair_found(p.pairs, p.key(i));
}

proof fn lemma_pairs_grow_slowly(p: Pairing, n: nat, now_ms: u64, config: CorrelationConfig)
    ensures
        p.held_against_first(n, now_ms, config).pairs.len() <= p.pairs.len() + n,
    decreases n,
{
    if n > 0 {
        lemma_pairs_grow_slowly(p, (n - 1) as nat, now_ms, config);
        let q = p.held_against_first((n - 1) as nat, now_ms, config);
        lemma_one_pair_more(q, n - 1, now_ms, config);
        assert(p.held_against_first(n, now_ms, config) == q.held_against(n - 1, now_ms, config));
    }
}

proof fn lemma_becomes_tracked(
    p: Pairing,
    n: nat,
    i: int,
    now_ms: u64,
    config: CorrelationConfig,
) -> (k: int)
    requires
        0 <= i < n <= p.occurrences.len(),
        p.matches_at(i, config),
        p.pairs.len() + n <= config.max_tracked_pairs,
    ensures
        0 <= k < p.held_against_first(n, now_ms, config).pairs.len(),
        p.held_against_first(n, now_ms, config).pairs[k].key == p.key(i),
        p.held_against_first(n, now_ms, config).pairs[k].state.last_seen_ms == now_ms,
    decreases n,
{
    let q = p.held_against_first((n - 1) as nat, now_ms, config);
    let r = p.held_against_first(n, now_ms, config);
    lemma_carried_held(p, (n - 1) as nat, now_ms, config);
    lemma_pairs_grow_slowly(p, (n - 1) as nat, now_ms, config);
    lemma_carried_step(q.pairs, q, n - 1, now_ms, config);
    if i < n - 1 {
        let k = lemma_becomes_tracked(p, (n - 1) as nat, i, now_ms, config);
        assert(r.pairs[k].key == q.pairs[k].key);
        k
    } else {
        assert(q.occurrences[i].event_ms == p.occurrences[i].event_ms);
        assert(q.matches_at(i, config));
        assert(q.key(i) == p.key(i));
        laws::lemma_pair_found(q.pairs, q.key(i));
        let k = correlate_cross::pair_position(q.pairs, q.key(i));
        if k < q.pairs.len() {
            assert(r.pairs[k].key == q.pairs[k].key);
        } else {
            assert(r.pairs.last().key == q.key(i));
        }
        k
    }
}

/// A finding that matches an occurrence makes their pair tracked, with this instant as that of its
/// latest match, as long as the cap is not in the way.
pub proof fn law_match_makes_the_pair_tracked(
    s: CorrelatorView,
    refused: RefusedView,
    f: FindingView,
    now_ms: u64,
    config: CorrelationConfig,
    i: int,
) -> (k: int)
    requires
        0 <= i < s.occurrences.len(),
        s.pairs.len() + s.occurrences.len() <= config.max_tracked_pairs,
        ({
            let x = correlate_cross::occurrence_of(f, now_ms, s.now_idx);
            let o = s.occurrences[i];
            &&& o.event_ms - x.event_ms <= config.lag_threshold_ms
            &&& x.event_ms - o.event_ms <= config.lag_threshold_ms
            &&& o.endpoint.service != x.endpoint.service
            &&& o.endpoint.grouping_key == x.endpoint.grouping_key
            &&& o.endpoint.grouping_value == x.endpoint.grouping_value
        }),
    ensures
        ({
            let after = correlate_cross::absorbed(s, refused, f, now_ms, config).0.pairs;
            let x = correlate_cross::occurrence_of(f, now_ms, s.now_idx);
            let o = s.occurrences[i];
            &&& 0 <= k < after.len()
            &&& after[k].key == if x.event_ms < o.event_ms {
                (PairKeyView { source: x.endpoint, target: o.endpoint })
            } else {
                (PairKeyView { source: o.endpoint, target: x.endpoint })
            }
            &&& after[k].state.last_seen_ms == now_ms
        }),
{
    let known = s.interned(endpoint::endpoint_of(f));
    let start = Pairing {
        occurrences: known.occurrences,
        incoming: correlate_cross::occurrence_of(f, now_ms, known.now_idx),
        pairs: known.pairs,
        refused,
    };
    lemma_becomes_tracked(start, known.occurrences.len(), i, now_ms, config)
}

/// A finding joins the occurrences as the last of them; which endpoint an occurrence is of, and when
/// it was, does not change.
pub proof fn law_finding_joins_the_occurrences(
    s: CorrelatorView,
    refused: RefusedView,
    f: FindingView,
    now_ms: u64,
    config: CorrelationConfig,
    m: int,
)
    ensures
        ({
            let after = correlate_cross::absorbed(s, refused, f, now_ms, config).0.occurrences;
            let x = correlate_cross::occurrence_of(f, now_ms, s.now_idx);
            &&& after.len() == s.occurrences.len() + 1
            &&& after.last().endpoint == x.endpoint
            &&& after.last().event_ms == x.event_ms
            &&& 0 <= m < s.occurrences.len() ==> after[m].endpoint == s.occurrences[m].endpoint
                && after[m].event_ms == s.occurrences[m].event_ms
        }),
{
    let known = s.interned(endpoint::endpoint_of(f));
    let start = Pairing {
        occurrences: known.occurrences,
        incoming: correlate_cross::occurrence_of(f, now_ms, known.now_idx),
        pairs: known.pairs,
        refused,
    };
    lemma_carried_held(start, known.occurrences.len(), now_ms, config);
    let done = start.held_against_first(known.occurrences.len(), now_ms, config);
    if 0 <= m < s.occurrences.len() {
        assert(done.occurrences[m].event_ms == s.occurrences[m].event_ms);
    }
}

/// A batch takes its findings one after the other, and refusals add up over them.
pub proof fn law_batch_takes_findings_one_by_one(
    s: CorrelatorView,
    findings: Seq<FindingView>,
    f: FindingView,
    now_ms: u64,
    config: CorrelationConfig,
)
    ensures
        ({
            let (before, refused) = correlate_cross::absorbed_all(s, findings, now_ms, config);
            correlate_cross::absorbed_all(s, findings.push(f), now_ms, config)
                == correlate_cross::absorbed(before, refused, f, now_ms, config)
        }),
        correlate_cross::absorbed_all(s, Seq::empty(), now_ms, config).0 == s,
{
    assert(findings.push(f).drop_last() =~= findings);
}

/// The value of an endpoint tells every field of it.
pub proof fn law_endpoint_value_tells_every_field(e: CorrelationEndpoint)
    ensures
        e@.finding_type == e.finding_type,
        e@.service == e.service@,
        e@.template == e.template@,
        e@.grouping_key is Some <==> e.grouping_key is Some,
        e.grouping_key is Some ==> e@.grouping_key->0 == e.grouping_key->0@,
        e@.grouping_value is Some <==> e.grouping_value is Some,
        e.grouping_value is Some ==> e@.grouping_value->0 == e.grouping_value->0@,
{
}

/// The value of a report tells every field of it.
pub proof fn law_report_value_tells_every_field(c: CrossTraceCorrelation)
    ensures
        c@.source == c.source@,
        c@.target == c.target@,
        c@.co_occurrence_count == c.co_occurrence_count,
        c@.source_total_occurrences == c.source_total_occurrences,
        c@.confidence == c.confidence,
        c@.twice_median_lag_ms == c.twice_median_lag_ms,
        c@.first_seen == c.first_seen@,
        c@.last_seen == c.last_seen@,
        c@.sample_trace_id is Some <==> c.sample_trace_id is Some,
        c.sample_trace_id is Some ==> c@.sample_trace_id->0 == c.sample_trace_id->0@,
        c@.source_sample_trace_id is Some <==> c.source_sample_trace_id is Some,
        c.source_sample_trace_id is Some ==> c@.source_sample_trace_id->0
            == c.source_sample_trace_id->0@,
{
}

/// The value of a correlator tells its occurrences, pairs and endpoints field by field.
pub proof fn law_correlator_value_tells_every_field(c: CrossTraceCorrelator, i: int)
    ensures
        c@.now_idx == c.now_idx,
        c@.pruned_idx == c.pruned_idx,
        c@.occurrences.len() == c.occurrences@.len(),
        c@.pairs.len() == c.pair_counts@.len(),
        c@.endpoints.len() == c.endpoints@.len(),
        0 <= i < c.occurrences@.len() ==> {
            let (v, o) = (c@.occurrences[i], c.occurrences@[i]);
            &&& v.endpoint == o.endpoint@
            &&& v.event_ms == o.event_ms
            &&& v.ingest_ms == o.ingest_ms
            &&& v.ingest_idx == o.ingest_idx
            &&& v.trace_id == o.trace_id@
            &&& v.counted_targets == o.counted_targets@.map_values(|e: CorrelationEndpoint| e@)
        },
        0 <= i < c.pair_counts@.len() ==> {
            let (v, p) = (c@.pairs[i], c.pair_counts@[i]);
            &&& v.key.source == p.key.source@
            &&& v.key.target == p.key.target@
            &&& v.state.co == p.state.co
            &&& v.state.lags_ms == p.state.lags_ms@
            &&& v.state.total_observations == p.state.total_observations
            &&& v.state.rng_state == p.state.rng_state
            &&& v.state.first_seen_ms == p.state.first_seen_ms
            &&& v.state.last_seen_ms == p.state.last_seen_ms
            &&& v.state.last_trace_id is Some <==> p.state.last_trace_id is Some
            &&& p.state.last_trace_id is Some ==> v.state.last_trace_id->0
                == p.state.last_trace_id->0@
            &&& v.state.last_source_trace_id is Some <==> p.state.last_source_trace_id is Some
            &&& p.state.last_source_trace_id is Some ==> v.state.last_source_trace_id->0
                == p.state.last_source_trace_id->0@
        },
        0 <= i < c.endpoints@.len() ==> {
            let (v, e) = (c@.endpoints[i], c.endpoints@[i]);
            &&& v.endpoint == e.endpoint@
            &&& v.count == e.count
        },
{
    if 0 <= i < c.occurrences@.len() {
        let o = c.occurrences@[i];
        assert(c@.occurrences[i].counted_targets =~= o.counted_targets@.map_values(
            |e: CorrelationEndpoint| e@,
        ));
    }
}

} // verus!

//! What every batch keeps, whatever findings it holds.

use crate::arith;
use crate::detect::correlate_cross;
use crate::detect::correlate_cross::endpoint;
use crate::detect::correlate_cross::endpoint::EndpointView;
use crate::detect::correlate_cross::grid;
use crate::detect::correlate_cross::grid::HalfWindowCount;
use crate::detect::correlate_cross::pair;
use crate::detect::correlate_cross::pair::{PairKeyView, PairStateView, MAX_LAG_SAMPLES};
use crate::detect::correlate_cross::{
    CorrelationConfig, CorrelatorView, EndpointCountView, OccurrenceView, PairView, Pairing,
    RefusedView,
};
use crate::detect::FindingView;
use crate::permutation;
use vstd::prelude::*;

verus! {

/// Whether no pair is tracked twice.
pub open spec fn pairs_apart(pairs: Seq<PairView>) -> bool {
    permutation::pairwise(pairs, |a: PairView, b: PairView| a.key != b.key)
}

/// Whether no endpoint is listed twice.
pub open spec fn endpoints_apart(endpoints: Seq<EndpointCountView>) -> bool {
    permutation::pairwise(
        endpoints,
        |a: EndpointCountView, b: EndpointCountView| a.endpoint != b.endpoint,
    )
}

/// Whether an endpoint is listed.
pub open spec fn known(endpoints: Seq<EndpointCountView>, e: EndpointView) -> bool {
    correlate_cross::endpoint_position(endpoints, e) < endpoints.len()
}

/// Whether a bucket is in the window that ends in bucket `now_idx`.
pub open spec fn visible(b: int, now_idx: u64) -> bool {
    b == now_idx || b + 1 == now_idx
}

/// An occurrence of `source` in bucket `b` that has not counted for `target`.
pub open spec fn open_for(source: EndpointView, target: EndpointView, b: int) -> spec_fn(
    OccurrenceView,
) -> bool {
    |o: OccurrenceView|
        o.endpoint == source && o.ingest_idx == b && !o.counted_targets.contains(target)
}

/// How many occurrences of `source` in bucket `b` have not counted for `target`.
pub open spec fn uncounted(
    occurrences: Seq<OccurrenceView>,
    source: EndpointView,
    target: EndpointView,
    b: int,
) -> nat {
    permutation::count_if(occurrences, open_for(source, target, b))
}

/// Whether a bucket of a count is at least `n`, or at its limit.
pub open spec fn covered(n: int, c: HalfWindowCount, b: int) -> bool {
    n <= c.bucket(b) || c.bucket(b) == u32::MAX
}

/// Whether what is left to count for a target fits the count of the source.
pub open spec fn rest_covered(
    occurrences: Seq<OccurrenceView>,
    endpoints: Seq<EndpointCountView>,
    source: EndpointView,
    target: EndpointView,
    b: int,
) -> bool {
    covered(
        uncounted(occurrences, source, target, b) as int,
        correlate_cross::count_of(endpoints, source),
        b,
    )
}

/// Whether what a pair counted, and what is left to count for it, fit the count of its source.
pub open spec fn pair_covered(
    p: PairView,
    occurrences: Seq<OccurrenceView>,
    endpoints: Seq<EndpointCountView>,
    b: int,
) -> bool {
    covered(
        p.state.co.bucket(b) + uncounted(occurrences, p.key.source, p.key.target, b),
        correlate_cross::count_of(endpoints, p.key.source),
        b,
    )
}

/// Whether no pair can outcount its source.
pub open spec fn balanced(
    occurrences: Seq<OccurrenceView>,
    pairs: Seq<PairView>,
    endpoints: Seq<EndpointCountView>,
    now_idx: u64,
) -> bool {
    &&& forall|source: EndpointView, target: EndpointView, b: int|
        visible(b, now_idx) ==> #[trigger] rest_covered(occurrences, endpoints, source, target, b)
    &&& forall|i: int, b: int|
        0 <= i < pairs.len() && visible(b, now_idx) ==> #[trigger] pair_covered(
            pairs[i],
            occurrences,
            endpoints,
            b,
        )
}

/// Whether a pair's reservoir holds every lag that was observed, or as many as it can.
pub open spec fn reservoir_ok(state: PairStateView) -> bool {
    &&& state.lags_ms.len() <= MAX_LAG_SAMPLES
    &&& state.lags_ms.len() == MAX_LAG_SAMPLES || state.lags_ms.len() == state.total_observations
}

/// Whether a pair is between different services in the same grouping, with a bounded reservoir,
/// and counted nothing ahead of the grid.
pub open spec fn pair_ok(
    p: PairView,
    endpoints: Seq<EndpointCountView>,
    now_idx: u64,
) -> bool {
    &&& endpoint::may_pair(p.key.source, p.key.target)
    &&& reservoir_ok(p.state)
    &&& p.state.co.idx <= now_idx
    &&& known(endpoints, p.key.source)
    &&& known(endpoints, p.key.target)
}

/// Whether an occurrence has a listed endpoint and lies in no later bucket than the current one.
pub open spec fn occurrence_ok(
    o: OccurrenceView,
    endpoints: Seq<EndpointCountView>,
    now_idx: u64,
) -> bool {
    o.ingest_idx <= now_idx && known(endpoints, o.endpoint)
}

/// What holds of a correlator between batches.
pub open spec fn consistent(s: CorrelatorView, config: CorrelationConfig) -> bool {
    &&& pairs_apart(s.pairs)
    &&& endpoints_apart(s.endpoints)
    &&& s.pairs.len() <= config.max_tracked_pairs
    &&& forall|i: int|
        0 <= i < s.pairs.len() ==> #[trigger] pair_ok(s.pairs[i], s.endpoints, s.now_idx)
    &&& forall|i: int|
        0 <= i < s.occurrences.len() ==> #[trigger] occurrence_ok(
            s.occurrences[i],
            s.endpoints,
            s.now_idx,
        )
    &&& forall|i: int| 0 <= i < s.endpoints.len() ==> (#[trigger] s.endpoints[i]).count.idx
        <= s.now_idx
    &&& balanced(s.occurrences, s.pairs, s.endpoints, s.now_idx)
}

/// Whether a pair matched within the window.
pub open spec fn is_live(p: PairView, now_ms: u64, config: CorrelationConfig) -> bool {
    p.state.last_seen_ms + config.window_ms >= now_ms
}

pub(crate) proof fn lemma_pair_found(pairs: Seq<PairView>, key: PairKeyView)
    ensures
        ({
            let at = correlate_cross::pair_position(pairs, key);
            &&& 0 <= at <= pairs.len()
            &&& at < pairs.len() ==> pairs[at].key == key
            &&& forall|k: int| 0 <= k < at ==> (#[trigger] pairs[k]).key != key
        }),
    decreases pairs.len(),
{
    if pairs.len() > 0 && pairs[0].key != key {
        let rest = pairs.drop_first();
        lemma_pair_found(rest, key);
        let at = correlate_cross::pair_position(pairs, key);
        assert forall|k: int| 0 <= k < at implies (#[trigger] pairs[k]).key != key by {
            if k > 0 {
                assert(rest[k - 1] == pairs[k]);
            }
        }
    }
}

pub(crate) proof fn lemma_endpoint_found(endpoints: Seq<EndpointCountView>, e: EndpointView)
    ensures
        ({
            let at = correlate_cross::endpoint_position(endpoints, e);
            &&& 0 <= at <= endpoints.len()
            &&& at < endpoints.len() ==> endpoints[at].endpoint == e
            &&& forall|k: int| 0 <= k < at ==> (#[trigger] endpoints[k]).endpoint != e
        }),
    decreases endpoints.len(),
{
    if endpoints.len() > 0 && endpoints[0].endpoint != e {
        let rest = endpoints.drop_first();
        lemma_endpoint_found(rest, e);
        let at = correlate_cross::endpoint_position(endpoints, e);
        assert forall|k: int| 0 <= k < at implies (#[trigger] endpoints[k]).endpoint != e by {
            if k > 0 {
                assert(rest[k - 1] == endpoints[k]);
            }
        }
    }
}

/// A correlator that has seen nothing is consistent.
pub proof fn law_new_correlator_is_consistent(config: CorrelationConfig)
    ensures
        consistent(CorrelatorView::empty(), config),
{
}

/// A pair never counts more often than its source occurred: the confidence is at most one without
/// being cut.
pub proof fn law_pair_never_outcounts_its_source(
    s: CorrelatorView,
    config: CorrelationConfig,
    i: int,
)
    requires
        consistent(s, config),
        0 <= i < s.pairs.len(),
    ensures
        s.pairs[i].state.co.in_window(s.now_idx) <= correlate_cross::count_of(
            s.endpoints,
            s.pairs[i].key.source,
        ).in_window(s.now_idx),
        correlate_cross::correlation_of(s, s.pairs[i], config) is Some ==> ({
            let c = correlate_cross::correlation_of(s, s.pairs[i], config)->0;
            &&& c.confidence.numerator == c.co_occurrence_count
            &&& c.confidence.denominator == c.source_total_occurrences
            &&& c.confidence.numerator <= c.confidence.denominator
            &&& endpoint::may_pair(c.source, c.target)
        }),
{
    let p = s.pairs[i];
    let total = correlate_cross::count_of(s.endpoints, p.key.source);
    assert(pair_ok(p, s.endpoints, s.now_idx));
    lemma_endpoint_found(s.endpoints, p.key.source);
    assert(total.idx <= s.now_idx);
    grid::law_window_is_its_two_buckets(p.state.co, s.now_idx);
    grid::law_window_is_its_two_buckets(total, s.now_idx);
    let now = s.now_idx as int;
    assert(visible(now, s.now_idx) && visible(now - 1, s.now_idx));
    assert(pair_covered(p, s.occurrences, s.endpoints, now));
    assert(pair_covered(p, s.occurrences, s.endpoints, now - 1));
}

/// A reported correlation is above the configured thresholds.
pub proof fn law_reported_correlations_pass_the_thresholds(
    s: CorrelatorView,
    config: CorrelationConfig,
    c: correlate_cross::CorrelationView,
)
    requires
        correlate_cross::correlations(s, config).contains(c),
    ensures
        c.co_occurrence_count >= config.min_co_occurrences,
        c.source_total_occurrences > 0,
        correlate_cross::at_least(c.confidence, config.min_confidence),
        exists|i: int|
            0 <= i < s.pairs.len() && (#[trigger] s.pairs[i]).key == (PairKeyView {
                source: c.source,
                target: c.target,
            }),
{
    let f = |p: PairView| correlate_cross::correlation_of(s, p, config);
    permutation::lemma_filter_map_contains(s.pairs, f, c);
    let i = choose|i: int| 0 <= i < s.pairs.len() && f(#[trigger] s.pairs[i]) == Some(c);
    assert(s.pairs[i].key == (PairKeyView { source: c.source, target: c.target }));
}

proof fn lemma_advanced(s: CorrelatorView, now_ms: u64, config: CorrelationConfig)
    requires
        consistent(s, config),
    ensures
        consistent(s.advanced(now_ms, config), config),
{
    let t = s.advanced(now_ms, config);
    assert forall|i: int| 0 <= i < t.pairs.len() implies #[trigger] pair_ok(
        t.pairs[i],
        t.endpoints,
        t.now_idx,
    ) by {
        assert(pair_ok(s.pairs[i], s.endpoints, s.now_idx));
    }
    assert forall|i: int| 0 <= i < t.occurrences.len() implies #[trigger] occurrence_ok(
        t.occurrences[i],
        t.endpoints,
        t.now_idx,
    ) by {
        assert(occurrence_ok(s.occurrences[i], s.endpoints, s.now_idx));
    }
    assert forall|source: EndpointView, target: EndpointView, b: int|
        visible(b, t.now_idx) implies #[trigger] rest_covered(
        t.occurrences,
        t.endpoints,
        source,
        target,
        b,
    ) by {
        if visible(b, s.now_idx) {
            assert(rest_covered(s.occurrences, s.endpoints, source, target, b));
        } else {
            assert(b > s.now_idx);
            assert forall|i: int| 0 <= i < s.occurrences.len() implies !open_for(
                source,
                target,
                b,
            )(#[trigger] s.occurrences[i]) by {
                assert(occurrence_ok(s.occurrences[i], s.endpoints, s.now_idx));
            }
            permutation::lemma_count_none(s.occurrences, open_for(source, target, b));
        }
    }
    assert forall|i: int, b: int|
        0 <= i < t.pairs.len() && visible(b, t.now_idx) implies #[trigger] pair_covered(
        t.pairs[i],
        t.occurrences,
        t.endpoints,
        b,
    ) by {
        let p = s.pairs[i];
        if visible(b, s.now_idx) {
            assert(pair_covered(p, s.occurrences, s.endpoints, b));
        } else {
            assert(pair_ok(p, s.endpoints, s.now_idx));
            assert(p.state.co.bucket(b) == 0);
            assert(rest_covered(
                t.occurrences,
                t.endpoints,
                p.key.source,
                p.key.target,
                b,
            ));
        }
    }
}

proof fn lemma_fewer_occurrences(
    s: CorrelatorView,
    occurrences: Seq<OccurrenceView>,
    k: int,
    config: CorrelationConfig,
)
    requires
        consistent(s, config),
        0 <= k <= s.occurrences.len(),
        occurrences == s.occurrences.skip(k),
    ensures
        consistent(CorrelatorView { occurrences, ..s }, config),
{
    let t = CorrelatorView { occurrences, ..s };
    assert forall|i: int| 0 <= i < t.occurrences.len() implies #[trigger] occurrence_ok(
        t.occurrences[i],
        t.endpoints,
        t.now_idx,
    ) by {
        assert(t.occurrences[i] == s.occurrences[i + k]);
        assert(occurrence_ok(s.occurrences[i + k], s.endpoints, s.now_idx));
    }
    assert(s.occurrences =~= s.occurrences.take(k) + occurrences);
    assert forall|source: EndpointView, target: EndpointView, b: int|
        uncounted(occurrences, source, target, b) <= #[trigger] uncounted(
            s.occurrences,
            source,
            target,
            b,
        ) by {
        permutation::lemma_count_add(
            s.occurrences.take(k),
            occurrences,
            open_for(source, target, b),
        );
    }
    assert forall|source: EndpointView, target: EndpointView, b: int|
        visible(b, t.now_idx) implies #[trigger] rest_covered(
        t.occurrences,
        t.endpoints,
        source,
        target,
        b,
    ) by {
        assert(rest_covered(s.occurrences, s.endpoints, source, target, b));
    }
    assert forall|i: int, b: int|
        0 <= i < t.pairs.len() && visible(b, t.now_idx) implies #[trigger] pair_covered(
        t.pairs[i],
        t.occurrences,
        t.endpoints,
        b,
    ) by {
        assert(pair_covered(s.pairs[i], s.occurrences, s.endpoints, b));
    }
}

proof fn lemma_suffix(occurrences: Seq<OccurrenceView>, reach: u64, now_ms: u64) -> (k: int)
    ensures
        0 <= k <= occurrences.len(),
        correlate_cross::without_stale(occurrences, reach, now_ms) == occurrences.skip(k),
    decreases occurrences.len(),
{
    if occurrences.len() > 0 && arith::capped(occurrences[0].ingest_ms + reach) < now_ms {
        let k = lemma_suffix(occurrences.drop_first(), reach, now_ms);
        assert(occurrences.drop_first().skip(k) =~= occurrences.skip(k + 1));
        k + 1
    } else {
        assert(occurrences.skip(0) =~= occurrences);
        0
    }
}

proof fn lemma_fewer_pairs(s: CorrelatorView, pairs: Seq<PairView>, config: CorrelationConfig)
    requires
        consistent(s, config),
        pairs_apart(pairs),
        pairs.len() <= s.pairs.len(),
        forall|i: int| 0 <= i < pairs.len() ==> s.pairs.contains(#[trigger] pairs[i]),
    ensures
        consistent(CorrelatorView { pairs, ..s }, config),
{
    let t = CorrelatorView { pairs, ..s };
    assert forall|i: int| 0 <= i < t.pairs.len() implies #[trigger] pair_ok(
        t.pairs[i],
        t.endpoints,
        t.now_idx,
    ) by {
        assert(s.pairs.contains(pairs[i]));
        let k = choose|k: int| 0 <= k < s.pairs.len() && s.pairs[k] == pairs[i];
        assert(pair_ok(s.pairs[k], s.endpoints, s.now_idx));
    }
    assert forall|i: int, b: int|
        0 <= i < t.pairs.len() && visible(b, t.now_idx) implies #[trigger] pair_covered(
        t.pairs[i],
        t.occurrences,
        t.endpoints,
        b,
    ) by {
        assert(s.pairs.contains(pairs[i]));
        let k = choose|k: int| 0 <= k < s.pairs.len() && s.pairs[k] == pairs[i];
        assert(pair_covered(s.pairs[k], s.occurrences, s.endpoints, b));
    }
}

pub(crate) proof fn lemma_filter_shrinks<A>(s: Seq<A>, p: spec_fn(A) -> bool)
    ensures
        s.filter(p).len() <= s.len(),
        forall|i: int| 0 <= i < s.filter(p).len() ==> s.contains(#[trigger] s.filter(p)[i]) && p(
            s.filter(p)[i],
        ),
{
    permutation::lemma_count_filter(s, p);
    permutation::lemma_count_bound(s, p);
    assert forall|i: int| 0 <= i < s.filter(p).len() implies s.contains(
        #[trigger] s.filter(p)[i],
    ) && p(s.filter(p)[i]) by {
        assert(s.filter(p).contains(s.filter(p)[i]));
        permutation::lemma_filter_contains(s, p, s.filter(p)[i]);
    }
}

proof fn lemma_in_window(s: CorrelatorView, now_ms: u64, config: CorrelationConfig)
    requires
        consistent(s, config),
    ensures
        consistent(s.in_window(now_ms, config), config),
        forall|i: int|
            0 <= i < s.in_window(now_ms, config).pairs.len() ==> is_live(
                #[trigger] s.in_window(now_ms, config).pairs[i],
                now_ms,
                config,
            ),
{
    let live = |p: PairView| p.state.last_seen_ms + config.window_ms >= now_ms;
    permutation::lemma_pairwise_filter(
        s.pairs,
        |a: PairView, b: PairView| a.key != b.key,
        live,
    );
    lemma_filter_shrinks(s.pairs, live);
    lemma_fewer_pairs(s, s.pairs.filter(live), config);
}

proof fn lemma_kept_endpoints(
    all: Seq<EndpointCountView>,
    keeps: spec_fn(EndpointCountView) -> bool,
    e: EndpointView,
)
    requires
        endpoints_apart(all),
    ensures
        known(all.filter(keeps), e) ==> known(all, e) && correlate_cross::count_of(
            all.filter(keeps),
            e,
        ) == correlate_cross::count_of(all, e),
        known(all, e) && keeps(all[correlate_cross::endpoint_position(all, e)]) ==> known(
            all.filter(keeps),
            e,
        ),
{
    let kept = all.filter(keeps);
    lemma_filter_shrinks(all, keeps);
    lemma_endpoint_found(all, e);
    lemma_endpoint_found(kept, e);
    let at = correlate_cross::endpoint_position(all, e);
    let k = correlate_cross::endpoint_position(kept, e);
    if k < kept.len() {
        assert(all.contains(kept[k]));
        let m = choose|m: int| 0 <= m < all.len() && all[m] == kept[k];
        assert(all[m].endpoint == e);
        assert(at <= m);
        if at < m {
            assert(all[at].endpoint == e);
        }
    }
    if at < all.len() && keeps(all[at]) {
        assert(all.contains(all[at]));
        permutation::lemma_filter_contains(all, keeps, all[at]);
        let m = choose|m: int| 0 <= m < kept.len() && kept[m] == all[at];
        assert(kept[m].endpoint == e);
    }
}

proof fn lemma_pruned(s: CorrelatorView, config: CorrelationConfig)
    requires
        consistent(s, config),
    ensures
        consistent(s.pruned(), config),
{
    if s.now_idx != s.pruned_idx {
        let keeps = |e: EndpointCountView|
            e.count.in_window(s.now_idx) > 0 || correlate_cross::pinned(s, e.endpoint);
        let t = s.pruned();
        permutation::lemma_pairwise_filter(
            s.endpoints,
            |a: EndpointCountView, b: EndpointCountView| a.endpoint != b.endpoint,
            keeps,
        );
        lemma_filter_shrinks(s.endpoints, keeps);
        assert forall|e: EndpointView| known(s.endpoints, e) && correlate_cross::pinned(
            s,
            e,
        ) implies #[trigger] known(t.endpoints, e) by {
            lemma_kept_endpoints(s.endpoints, keeps, e);
            lemma_endpoint_found(s.endpoints, e);
        }
        assert forall|i: int| 0 <= i < t.pairs.len() implies #[trigger] pair_ok(
            t.pairs[i],
            t.endpoints,
            t.now_idx,
        ) by {
            assert(pair_ok(s.pairs[i], s.endpoints, s.now_idx));
            assert(correlate_cross::pinned(s, s.pairs[i].key.source));
            assert(correlate_cross::pinned(s, s.pairs[i].key.target));
        }
        assert forall|i: int| 0 <= i < t.occurrences.len() implies #[trigger] occurrence_ok(
            t.occurrences[i],
            t.endpoints,
            t.now_idx,
        ) by {
            assert(occurrence_ok(s.occurrences[i], s.endpoints, s.now_idx));
            assert(correlate_cross::pinned(s, s.occurrences[i].endpoint));
        }
        assert forall|i: int| 0 <= i < t.endpoints.len() implies (
        #[trigger] t.endpoints[i]).count.idx <= t.now_idx by {
            assert(s.endpoints.contains(t.endpoints[i]));
            let k = choose|k: int| 0 <= k < s.endpoints.len() && s.endpoints[k] == t.endpoints[i];
            assert(s.endpoints[k].count.idx <= s.now_idx);
        }
        assert forall|source: EndpointView, target: EndpointView, b: int|
            visible(b, t.now_idx) implies #[trigger] rest_covered(
            t.occurrences,
            t.endpoints,
            source,
            target,
            b,
        ) by {
            lemma_kept_endpoints(s.endpoints, keeps, source);
            assert(rest_covered(s.occurrences, s.endpoints, source, target, b));
            if !known(t.endpoints, source) {
                assert forall|i: int| 0 <= i < s.occurrences.len() implies !open_for(
                    source,
                    target,
                    b,
                )(#[trigger] s.occurrences[i]) by {
                    assert(occurrence_ok(s.occurrences[i], s.endpoints, s.now_idx));
                    assert(correlate_cross::pinned(s, s.occurrences[i].endpoint));
                }
                permutation::lemma_count_none(s.occurrences, open_for(source, target, b));
            }
        }
        assert forall|i: int, b: int|
            0 <= i < t.pairs.len() && visible(b, t.now_idx) implies #[trigger] pair_covered(
            t.pairs[i],
            t.occurrences,
            t.endpoints,
            b,
        ) by {
            assert(pair_covered(s.pairs[i], s.occurrences, s.endpoints, b));
            assert(pair_ok(t.pairs[i], t.endpoints, t.now_idx));
            lemma_kept_endpoints(s.endpoints, keeps, s.pairs[i].key.source);
        }
    }
}

/// The occurrences of a pairing, the incoming one last.
pub open spec fn line(p: Pairing) -> Seq<OccurrenceView> {
    p.occurrences.push(p.incoming)
}

/// What holds of a pairing after every step.
pub open spec fn pairing_ok(
    p: Pairing,
    endpoints: Seq<EndpointCountView>,
    now_idx: u64,
    now_ms: u64,
    config: CorrelationConfig,
) -> bool {
    &&& pairs_apart(p.pairs)
    &&& p.pairs.len() <= config.max_tracked_pairs
    &&& forall|i: int| 0 <= i < p.pairs.len() ==> #[trigger] pair_ok(p.pairs[i], endpoints, now_idx)
    &&& forall|i: int|
        0 <= i < p.pairs.len() ==> is_live(#[trigger] p.pairs[i], now_ms, config)
    &&& forall|i: int|
        0 <= i < line(p).len() ==> #[trigger] occurrence_ok(line(p)[i], endpoints, now_idx)
    &&& balanced(line(p), p.pairs, endpoints, now_idx)
}

pub(crate) proof fn lemma_interned_counts(s: CorrelatorView, e: EndpointView, f: EndpointView)
    requires
        endpoints_apart(s.endpoints),
    ensures
        endpoints_apart(s.interned(e).endpoints),
        known(s.interned(e).endpoints, e),
        known(s.endpoints, f) ==> known(s.interned(e).endpoints, f),
        correlate_cross::count_of(s.interned(e).endpoints, f) == (if f == e {
            correlate_cross::count_of(s.endpoints, e).counted(s.now_idx)
        } else {
            correlate_cross::count_of(s.endpoints, f)
        }),
{
    let all = s.endpoints;
    let new = s.interned(e).endpoints;
    lemma_endpoint_found(all, e);
    lemma_endpoint_found(all, f);
    lemma_endpoint_found(new, e);
    lemma_endpoint_found(new, f);
    let at = correlate_cross::endpoint_position(all, e);
    let was = correlate_cross::endpoint_position(all, f);
    let is = correlate_cross::endpoint_position(new, f);
    assert forall|k: int| 0 <= k < all.len() implies (#[trigger] new[k]).endpoint
        == all[k].endpoint by {
    }
    assert(new[at].endpoint == e);
    if correlate_cross::endpoint_position(new, e) > at {
        assert(new[at].endpoint != e);
    }
    if was < all.len() {
        assert(new[was].endpoint == f);
        assert(is <= was);
        if is < was {
            assert(all[is].endpoint == f);
        }
    } else if f != e {
        if is < new.len() {
            if is < all.len() {
                assert(all[is].endpoint == f);
            }
        }
    } else {
        assert(is == at) by {
            if is < at {
                assert(all[is].endpoint == e);
            }
        }
    }
    assert(endpoints_apart(new)) by {
        assert forall|i: int, j: int|
            #![trigger new[i], new[j]]
            0 <= i < new.len() && 0 <= j < new.len() && i != j implies new[i].endpoint
            != new[j].endpoint by {
            if i < all.len() && j < all.len() {
                assert(all[i].endpoint != all[j].endpoint);
            } else if i < all.len() {
                assert(all[i].endpoint != e);
            } else {
                assert(all[j].endpoint != e);
            }
        }
    }
}

proof fn lemma_uncounted_push(
    occurrences: Seq<OccurrenceView>,
    o: OccurrenceView,
    source: EndpointView,
    target: EndpointView,
    b: int,
)
    ensures
        uncounted(occurrences.push(o), source, target, b) == uncounted(
            occurrences,
            source,
            target,
            b,
        ) + (if open_for(source, target, b)(o) {
            1nat
        } else {
            0nat
        }),
{
    assert(occurrences.push(o).drop_last() =~= occurrences);
}

proof fn lemma_pairing_starts(
    s: CorrelatorView,
    refused: RefusedView,
    f: FindingView,
    now_ms: u64,
    config: CorrelationConfig,
)
    requires
        consistent(s, config),
        forall|i: int| 0 <= i < s.pairs.len() ==> is_live(#[trigger] s.pairs[i], now_ms, config),
    ensures
        pairing_ok(
            (Pairing {
                occurrences: s.occurrences,
                incoming: correlate_cross::occurrence_of(f, now_ms, s.now_idx),
                pairs: s.pairs,
                refused,
            }),
            s.interned(endpoint::endpoint_of(f)).endpoints,
            s.now_idx,
            now_ms,
            config,
        ),
        endpoints_apart(s.interned(endpoint::endpoint_of(f)).endpoints),
        forall|i: int|
            0 <= i < s.interned(endpoint::endpoint_of(f)).endpoints.len() ==> (
            #[trigger] s.interned(endpoint::endpoint_of(f)).endpoints[i]).count.idx <= s.now_idx,
{
    let e = endpoint::endpoint_of(f);
    let new = s.interned(e).endpoints;
    let o = correlate_cross::occurrence_of(f, now_ms, s.now_idx);
    let p = Pairing { occurrences: s.occurrences, incoming: o, pairs: s.pairs, refused };
    lemma_interned_counts(s, e, e);
    lemma_endpoint_found(s.endpoints, e);
    assert forall|i: int| 0 <= i < p.pairs.len() implies #[trigger] pair_ok(
        p.pairs[i],
        new,
        s.now_idx,
    ) by {
        assert(pair_ok(s.pairs[i], s.endpoints, s.now_idx));
        lemma_interned_counts(s, e, s.pairs[i].key.source);
        lemma_interned_counts(s, e, s.pairs[i].key.target);
    }
    assert forall|i: int| 0 <= i < line(p).len() implies #[trigger] occurrence_ok(
        line(p)[i],
        new,
        s.now_idx,
    ) by {
        if i < s.occurrences.len() {
            assert(occurrence_ok(s.occurrences[i], s.endpoints, s.now_idx));
            lemma_interned_counts(s, e, s.occurrences[i].endpoint);
        }
    }
    assert forall|source: EndpointView, target: EndpointView, b: int|
        visible(b, s.now_idx) implies #[trigger] rest_covered(line(p), new, source, target, b) by {
        assert(rest_covered(s.occurrences, s.endpoints, source, target, b));
        lemma_interned_counts(s, e, source);
        lemma_uncounted_push(s.occurrences, o, source, target, b);
    }
    assert forall|i: int, b: int|
        0 <= i < p.pairs.len() && visible(b, s.now_idx) implies #[trigger] pair_covered(
        p.pairs[i],
        line(p),
        new,
        b,
    ) by {
        let q = s.pairs[i];
        assert(pair_covered(q, s.occurrences, s.endpoints, b));
        lemma_interned_counts(s, e, q.key.source);
        lemma_uncounted_push(s.occurrences, o, q.key.source, q.key.target, b);
    }
    assert forall|i: int| 0 <= i < new.len() implies (#[trigger] new[i]).count.idx
        <= s.now_idx by {
        if i < s.endpoints.len() {
            assert(s.endpoints[i].count.idx <= s.now_idx);
        }
    }
}

/// The place in the line of the one that leads against occurrence `i`.
spec fn source_place(p: Pairing, i: int) -> int {
    if p.incoming_leads(i) {
        p.occurrences.len() as int
    } else {
        i
    }
}

proof fn lemma_line_after(
    p: Pairing,
    i: int,
    now_ms: u64,
    config: CorrelationConfig,
)
    requires
        0 <= i < p.occurrences.len(),
        p.matches_at(i, config),
        !p.is_refused(i, config),
    ensures
        line(p.held_against(i, now_ms, config)) == line(p).update(
            source_place(p, i),
            p.source_after(i),
        ),
        line(p)[source_place(p, i)] == p.source(i),
{
    assert(line(p.held_against(i, now_ms, config)) =~= line(p).update(
        source_place(p, i),
        p.source_after(i),
    ));
}

proof fn lemma_uncounted_after(
    p: Pairing,
    i: int,
    source: EndpointView,
    target: EndpointView,
    b: int,
)
    requires
        0 <= i < p.occurrences.len(),
    ensures
        ({
            let after = line(p).update(source_place(p, i), p.source_after(i));
            let left = uncounted(after, source, target, b);
            if !p.is_repeat(i) && source == p.source(i).endpoint && target == p.target(i).endpoint
                && b == p.source(i).ingest_idx {
                left + 1 == uncounted(line(p), source, target, b)
            } else {
                left == uncounted(line(p), source, target, b)
            }
        }),
{
    let o = p.source(i);
    let after = p.source_after(i);
    let test = open_for(source, target, b);
    permutation::lemma_count_update(line(p), source_place(p, i), after, test);
    assert(line(p)[source_place(p, i)] == o);
    if !p.is_repeat(i) {
        let t = p.target(i).endpoint;
        assert(after.counted_targets == o.counted_targets.push(t));
        assert(after.counted_targets[o.counted_targets.len() as int] == t);
        if o.counted_targets.contains(target) {
            let k = choose|k: int|
                0 <= k < o.counted_targets.len() && o.counted_targets[k] == target;
            assert(after.counted_targets[k] == target);
        }
        if after.counted_targets.contains(target) && target != t {
            let k = choose|k: int|
                0 <= k < after.counted_targets.len() && after.counted_targets[k] == target;
            assert(o.counted_targets[k] == target);
        }
    }
}

proof fn lemma_state_after(
    p: Pairing,
    i: int,
    now_ms: u64,
    endpoints: Seq<EndpointCountView>,
    now_idx: u64,
    config: CorrelationConfig,
)
    requires
        0 <= i < p.occurrences.len(),
        p.matches_at(i, config),
        pairing_ok(p, endpoints, now_idx, now_ms, config),
    ensures
        pair_ok(
            (PairView { key: p.key(i), state: p.state_after(i, now_ms) }),
            endpoints,
            now_idx,
        ),
        p.state_after(i, now_ms).last_seen_ms == now_ms,
        forall|b: int| visible(b, now_idx) ==> #[trigger] pair_covered(
            (PairView { key: p.key(i), state: p.state_after(i, now_ms) }),
            line(p).update(source_place(p, i), p.source_after(i)),
            endpoints,
            b,
        ),
{
    let key = p.key(i);
    let at = correlate_cross::pair_position(p.pairs, key);
    lemma_pair_found(p.pairs, key);
    let before = if p.is_tracked(i) {
        p.pairs[at].state
    } else {
        PairStateView::fresh(now_ms, key)
    };
    let entry = PairView { key, state: p.state_after(i, now_ms) };
    let seen = before.matched(now_ms, p.source(i).trace_id, p.target(i).trace_id);
    let n = p.occurrences.len() as int;
    assert(line(p)[i] == p.occurrences[i] && line(p)[n] == p.incoming);
    assert(occurrence_ok(line(p)[i], endpoints, now_idx));
    assert(occurrence_ok(line(p)[n], endpoints, now_idx));
    assert(endpoint::may_pair(key.source, key.target)) by {
        endpoint::law_pairing_is_between_services(
            p.occurrences[i].endpoint,
            p.incoming.endpoint,
        );
    }
    if p.is_tracked(i) {
        assert(pair_ok(p.pairs[at], endpoints, now_idx));
    }
    assert(before.co.idx <= now_idx && reservoir_ok(before));
    if !p.is_repeat(i) {
        let counting = PairStateView {
            co: seen.co.counted(p.source(i).ingest_idx),
            ..seen
        };
        pair::law_reservoir_is_bounded(
            counting,
            correlate_cross::distance(p.occurrences[i].event_ms, p.incoming.event_ms),
        );
    }
    let after = line(p).update(source_place(p, i), p.source_after(i));
    assert forall|b: int| visible(b, now_idx) implies #[trigger] pair_covered(
        entry,
        after,
        endpoints,
        b,
    ) by {
        lemma_uncounted_after(p, i, key.source, key.target, b);
        if p.is_tracked(i) {
            assert(pair_covered(p.pairs[at], line(p), endpoints, b));
        } else {
            assert(rest_covered(line(p), endpoints, key.source, key.target, b));
        }
        if !p.is_repeat(i) {
            grid::law_count_lands_in_its_bucket(before.co, p.source(i).ingest_idx, b);
        }
    }
}

proof fn lemma_held(
    p: Pairing,
    i: int,
    now_ms: u64,
    endpoints: Seq<EndpointCountView>,
    now_idx: u64,
    config: CorrelationConfig,
)
    requires
        0 <= i < p.occurrences.len(),
        pairing_ok(p, endpoints, now_idx, now_ms, config),
    ensures
        pairing_ok(p.held_against(i, now_ms, config), endpoints, now_idx, now_ms, config),
        p.held_against(i, now_ms, config).occurrences.len() == p.occurrences.len(),
{
    let q = p.held_against(i, now_ms, config);
    if p.matches_at(i, config) && p.is_refused(i, config) {
        assert(line(q) =~= line(p));
    }
    if p.matches_at(i, config) && !p.is_refused(i, config) {
        let key = p.key(i);
        let at = correlate_cross::pair_position(p.pairs, key);
        let entry = PairView { key, state: p.state_after(i, now_ms) };
        let place = source_place(p, i);
        lemma_pair_found(p.pairs, key);
        lemma_line_after(p, i, now_ms, config);
        lemma_state_after(p, i, now_ms, endpoints, now_idx, config);
        let n = if p.is_tracked(i) {
            at
        } else {
            p.pairs.len() as int
        };
        assert(q.pairs[n] == entry);
        assert forall|k: int| 0 <= k < q.pairs.len() && k != n implies #[trigger] q.pairs[k]
            == p.pairs[k] by {
        }
        assert forall|k: int| 0 <= k < q.pairs.len() && k != n implies (
        #[trigger] q.pairs[k]).key != key by {
            if p.is_tracked(i) {
                assert(p.pairs[k].key != p.pairs[at].key);
            } else {
                assert(p.pairs[k].key != key);
            }
        }
        assert(pairs_apart(q.pairs)) by {
            assert forall|j: int, k: int|
                #![trigger q.pairs[j], q.pairs[k]]
                0 <= j < q.pairs.len() && 0 <= k < q.pairs.len() && j != k implies q.pairs[j].key
                != q.pairs[k].key by {
                if j != n && k != n {
                    assert(p.pairs[j].key != p.pairs[k].key);
                }
            }
        }
        assert forall|k: int| 0 <= k < q.pairs.len() implies #[trigger] pair_ok(
            q.pairs[k],
            endpoints,
            now_idx,
        ) by {
            if k != n {
                assert(pair_ok(p.pairs[k], endpoints, now_idx));
            }
        }
        assert forall|k: int| 0 <= k < q.pairs.len() implies is_live(
            #[trigger] q.pairs[k],
            now_ms,
            config,
        ) by {
            if k != n {
                assert(is_live(p.pairs[k], now_ms, config));
            }
        }
        assert forall|k: int| 0 <= k < line(q).len() implies #[trigger] occurrence_ok(
            line(q)[k],
            endpoints,
            now_idx,
        ) by {
            assert(occurrence_ok(line(p)[k], endpoints, now_idx));
        }
        assert forall|source: EndpointView, target: EndpointView, b: int|
            visible(b, now_idx) implies #[trigger] rest_covered(
            line(q),
            endpoints,
            source,
            target,
            b,
        ) by {
            assert(rest_covered(line(p), endpoints, source, target, b));
            lemma_uncounted_after(p, i, source, target, b);
        }
        assert forall|k: int, b: int|
            0 <= k < q.pairs.len() && visible(b, now_idx) implies #[trigger] pair_covered(
            q.pairs[k],
            line(q),
            endpoints,
            b,
        ) by {
            if k != n {
                let other = p.pairs[k];
                assert(q.pairs[k] == other);
                assert(pair_covered(other, line(p), endpoints, b));
                lemma_uncounted_after(p, i, other.key.source, other.key.target, b);
                assert(other.key != key);
            }
        }
    }
}

proof fn lemma_held_first(
    p: Pairing,
    n: nat,
    now_ms: u64,
    endpoints: Seq<EndpointCountView>,
    now_idx: u64,
    config: CorrelationConfig,
)
    requires
        n <= p.occurrences.len(),
        pairing_ok(p, endpoints, now_idx, now_ms, config),
    ensures
        pairing_ok(
            p.held_against_first(n, now_ms, config),
            endpoints,
            now_idx,
            now_ms,
            config,
        ),
        p.held_against_first(n, now_ms, config).occurrences.len() == p.occurrences.len(),
    decreases n,
{
    if n > 0 {
        lemma_held_first(p, (n - 1) as nat, now_ms, endpoints, now_idx, config);
        lemma_held(
            p.held_against_first((n - 1) as nat, now_ms, config),
            n - 1,
            now_ms,
            endpoints,
            now_idx,
            config,
        );
    }
}

proof fn lemma_absorbed(
    s: CorrelatorView,
    refused: RefusedView,
    f: FindingView,
    now_ms: u64,
    config: CorrelationConfig,
)
    requires
        consistent(s, config),
        forall|i: int| 0 <= i < s.pairs.len() ==> is_live(#[trigger] s.pairs[i], now_ms, config),
    ensures
        ({
            let t = correlate_cross::absorbed(s, refused, f, now_ms, config).0;
            &&& consistent(t, config)
            &&& t.now_idx == s.now_idx
            &&& t.occurrences.len() == s.occurrences.len() + 1
            &&& forall|i: int|
                0 <= i < t.pairs.len() ==> is_live(#[trigger] t.pairs[i], now_ms, config)
        }),
{
    let known = s.interned(endpoint::endpoint_of(f));
    let start = Pairing {
        occurrences: known.occurrences,
        incoming: correlate_cross::occurrence_of(f, now_ms, known.now_idx),
        pairs: known.pairs,
        refused,
    };
    lemma_pairing_starts(s, refused, f, now_ms, config);
    lemma_held_first(
        start,
        s.occurrences.len(),
        now_ms,
        known.endpoints,
        s.now_idx,
        config,
    );
    let done = start.held_against_first(s.occurrences.len(), now_ms, config);
    let t = correlate_cross::absorbed(s, refused, f, now_ms, config).0;
    assert(t.occurrences == line(done));
    assert(t.pairs == done.pairs);
    assert(t.endpoints == known.endpoints);
}

pub(crate) proof fn lemma_absorbed_all(
    s: CorrelatorView,
    findings: Seq<FindingView>,
    now_ms: u64,
    config: CorrelationConfig,
)
    requires
        consistent(s, config),
        forall|i: int| 0 <= i < s.pairs.len() ==> is_live(#[trigger] s.pairs[i], now_ms, config),
    ensures
        ({
            let t = correlate_cross::absorbed_all(s, findings, now_ms, config).0;
            &&& consistent(t, config)
            &&& t.now_idx == s.now_idx
            &&& t.occurrences.len() == s.occurrences.len() + findings.len()
            &&& forall|i: int|
                0 <= i < t.pairs.len() ==> is_live(#[trigger] t.pairs[i], now_ms, config)
        }),
    decreases findings.len(),
{
    if findings.len() > 0 {
        lemma_absorbed_all(s, findings.drop_last(), now_ms, config);
        let (before, refused) = correlate_cross::absorbed_all(
            s,
            findings.drop_last(),
            now_ms,
            config,
        );
        lemma_absorbed(before, refused, findings.last(), now_ms, config);
    }
}

pub(crate) proof fn lemma_survivors_stay(
    pairs: Seq<PairView>,
    now_idx: u64,
    threshold: correlate_cross::PairRank,
    extra: nat,
)
    requires
        pairs_apart(pairs),
    ensures
        ({
            let kept = correlate_cross::survivors(pairs, now_idx, threshold, extra);
            &&& kept.len() <= pairs.len()
            &&& pairs_apart(kept)
            &&& forall|i: int|
                0 <= i < kept.len() ==> pairs.contains(#[trigger] kept[i])
                    && !correlate_cross::rank_of(kept[i], now_idx).lower(threshold)
            &&& forall|i: int|
                0 <= i < pairs.len() && threshold.lower(
                    correlate_cross::rank_of(#[trigger] pairs[i], now_idx),
                ) ==> kept.contains(pairs[i])
        }),
    decreases pairs.len(),
{
    if pairs.len() > 0 {
        let rest = pairs.drop_last();
        assert(pairs_apart(rest)) by {
            assert forall|i: int, j: int|
                #![trigger rest[i], rest[j]]
                0 <= i < rest.len() && 0 <= j < rest.len() && i != j implies rest[i].key
                != rest[j].key by {
                assert(rest[i] == pairs[i] && rest[j] == pairs[j]);
            }
        }
        lemma_survivors_stay(rest, now_idx, threshold, extra);
        let old = correlate_cross::survivors(rest, now_idx, threshold, extra);
        let kept = correlate_cross::survivors(pairs, now_idx, threshold, extra);
        let last = pairs.last();
        assert(pairs[pairs.len() - 1] == last);
        assert forall|i: int| 0 <= i < old.len() implies pairs.contains(#[trigger] old[i])
            && old[i].key != last.key by {
            assert(rest.contains(old[i]));
            let k = choose|k: int| 0 <= k < rest.len() && rest[k] == old[i];
            assert(pairs[k] == old[i]);
            assert(pairs[k].key != pairs[pairs.len() - 1].key);
        }
        assert forall|i: int| 0 <= i < kept.len() implies pairs.contains(#[trigger] kept[i])
            && !correlate_cross::rank_of(kept[i], now_idx).lower(threshold) by {
            if i < old.len() {
                assert(kept[i] == old[i]);
            }
        }
        assert(pairs_apart(kept)) by {
            assert forall|i: int, j: int|
                #![trigger kept[i], kept[j]]
                0 <= i < kept.len() && 0 <= j < kept.len() && i != j implies kept[i].key
                != kept[j].key by {
                if i < old.len() {
                    assert(kept[i] == old[i]);
                }
                if j < old.len() {
                    assert(kept[j] == old[j]);
                }
            }
        }
        assert forall|i: int|
            0 <= i < pairs.len() && threshold.lower(
                correlate_cross::rank_of(#[trigger] pairs[i], now_idx),
            ) implies kept.contains(pairs[i]) by {
            if i < rest.len() {
                assert(rest[i] == pairs[i]);
                assert(old.contains(rest[i]));
                let k = choose|k: int| 0 <= k < old.len() && old[k] == rest[i];
                assert(kept[k] == old[k]);
            } else {
                assert(kept[old.len() as int] == last);
            }
        }
    }
}

/// An eviction takes the lowest pairs: none that stays has a lower windowed count, or the same
/// count and an older match, than one that goes.
pub proof fn law_eviction_takes_the_lowest(
    pairs: Seq<PairView>,
    now_idx: u64,
    n: nat,
    gone: int,
    stays: int,
)
    requires
        pairs_apart(pairs),
        0 < n <= pairs.len(),
        0 <= gone < pairs.len(),
        !correlate_cross::after_eviction(pairs, now_idx, n).contains(pairs[gone]),
        0 <= stays < correlate_cross::after_eviction(pairs, now_idx, n).len(),
    ensures
        !correlate_cross::rank_of(
            correlate_cross::after_eviction(pairs, now_idx, n)[stays],
            now_idx,
        ).lower(correlate_cross::rank_of(pairs[gone], now_idx)),
{
    let threshold = crate::order::ranked(correlate_cross::ranks(pairs, now_idx))[n - 1];
    let lower = permutation::count_if(
        correlate_cross::ranks(pairs, now_idx),
        correlate_cross::below(threshold),
    );
    lemma_survivors_stay(pairs, now_idx, threshold, (n - lower) as nat);
}

/// A batch keeps the correlator consistent: distinct pairs between different services of one
/// grouping, no more of them than the cap, bounded reservoirs, and no pair that outcounts its
/// source.
pub proof fn law_ingest_keeps_the_correlator_consistent(
    s: CorrelatorView,
    findings: Seq<FindingView>,
    now_ms: u64,
    config: CorrelationConfig,
)
    requires
        consistent(s, config),
    ensures
        consistent(correlate_cross::ingested(s, findings, now_ms, config).0, config),
{
    lemma_ingested(s, findings, now_ms, config);
}

/// After a batch every tracked pair matched within the window: one window after its last match a
/// quiet pair is gone.
pub proof fn law_no_pair_outlives_the_window(
    s: CorrelatorView,
    findings: Seq<FindingView>,
    now_ms: u64,
    config: CorrelationConfig,
    i: int,
)
    requires
        consistent(s, config),
        0 <= i < correlate_cross::ingested(s, findings, now_ms, config).0.pairs.len(),
    ensures
        correlate_cross::ingested(s, findings, now_ms, config).0.pairs[i].state.last_seen_ms
            + config.window_ms >= now_ms,
{
    lemma_ingested(s, findings, now_ms, config);
    assert(is_live(
        correlate_cross::ingested(s, findings, now_ms, config).0.pairs[i],
        now_ms,
        config,
    ));
}

pub(crate) proof fn lemma_swept(s: CorrelatorView, now_ms: u64, config: CorrelationConfig)
    requires
        consistent(s, config),
    ensures
        ({
            let swept = s.advanced(now_ms, config).in_horizon(now_ms, config).in_window(
                now_ms,
                config,
            ).pruned();
            &&& consistent(swept, config)
            &&& forall|i: int|
                0 <= i < swept.pairs.len() ==> is_live(#[trigger] swept.pairs[i], now_ms, config)
        }),
{
    let on_time = s.advanced(now_ms, config);
    lemma_advanced(s, now_ms, config);
    let near = on_time.in_horizon(now_ms, config);
    let k = lemma_suffix(on_time.occurrences, config.reach(), now_ms);
    lemma_fewer_occurrences(on_time, near.occurrences, k, config);
    let live = near.in_window(now_ms, config);
    lemma_in_window(near, now_ms, config);
    lemma_pruned(live, config);
    assert(live.pruned().pairs == live.pairs);
}

proof fn lemma_ingested(
    s: CorrelatorView,
    findings: Seq<FindingView>,
    now_ms: u64,
    config: CorrelationConfig,
)
    requires
        consistent(s, config),
    ensures
        ({
            let t = correlate_cross::ingested(s, findings, now_ms, config).0;
            &&& consistent(t, config)
            &&& forall|i: int|
                0 <= i < t.pairs.len() ==> is_live(#[trigger] t.pairs[i], now_ms, config)
        }),
{
    let swept = s.advanced(now_ms, config).in_horizon(now_ms, config).in_window(
        now_ms,
        config,
    ).pruned();
    lemma_swept(s, now_ms, config);
    lemma_absorbed_all(swept, findings, now_ms, config);
    let (held, refused) = correlate_cross::absorbed_all(swept, findings, now_ms, config);
    let n = correlate_cross::to_evict(held.pairs.len(), config);
    if refused.count() > 0 && n > 0 {
        let threshold = crate::order::ranked(
            correlate_cross::ranks(held.pairs, held.now_idx),
        )[n - 1];
        let lower = permutation::count_if(
            correlate_cross::ranks(held.pairs, held.now_idx),
            correlate_cross::below(threshold),
        );
        let kept = correlate_cross::after_eviction(held.pairs, held.now_idx, n);
        lemma_survivors_stay(held.pairs, held.now_idx, threshold, (n - lower) as nat);
        lemma_fewer_pairs(held, kept, config);
        assert forall|i: int| 0 <= i < kept.len() implies is_live(
            #[trigger] kept[i],
            now_ms,
            config,
        ) by {
            assert(held.pairs.contains(kept[i]));
            let m = choose|m: int| 0 <= m < held.pairs.len() && held.pairs[m] == kept[i];
            assert(is_live(held.pairs[m], now_ms, config));
        }
    }
}

/// When the ingest of each occurrence was.
pub open spec fn ingest_times(occurrences: Seq<OccurrenceView>) -> Seq<u64> {
    occurrences.map_values(|o: OccurrenceView| o.ingest_ms)
}

proof fn lemma_times_held(p: Pairing, n: nat, now_ms: u64, config: CorrelationConfig)
    requires
        n <= p.occurrences.len(),
    ensures
        ingest_times(line(p.held_against_first(n, now_ms, config))) == ingest_times(line(p)),
        p.held_against_first(n, now_ms, config).occurrences.len() == p.occurrences.len(),
    decreases n,
{
    if n > 0 {
        lemma_times_held(p, (n - 1) as nat, now_ms, config);
        let q = p.held_against_first((n - 1) as nat, now_ms, config);
        let r = p.held_against_first(n, now_ms, config);
        let i = n - 1;
        if q.matches_at(i, config) && !q.is_refused(i, config) {
            lemma_line_after(q, i, now_ms, config);
        } else {
            assert(line(r) =~= line(q));
        }
        assert(ingest_times(line(r)) =~= ingest_times(line(q)));
    }
}

pub(crate) proof fn lemma_times_absorbed(
    s: CorrelatorView,
    findings: Seq<FindingView>,
    now_ms: u64,
    config: CorrelationConfig,
)
    ensures
        ingest_times(
            correlate_cross::absorbed_all(s, findings, now_ms, config).0.occurrences,
        ) == ingest_times(s.occurrences) + Seq::new(findings.len(), |i: int| now_ms),
    decreases findings.len(),
{
    if findings.len() == 0 {
        assert(ingest_times(s.occurrences) + Seq::new(0, |i: int| now_ms) =~= ingest_times(
            s.occurrences,
        ));
    } else {
        lemma_times_absorbed(s, findings.drop_last(), now_ms, config);
        let (before, refused) = correlate_cross::absorbed_all(
            s,
            findings.drop_last(),
            now_ms,
            config,
        );
        let f = findings.last();
        let known = before.interned(endpoint::endpoint_of(f));
        let start = Pairing {
            occurrences: known.occurrences,
            incoming: correlate_cross::occurrence_of(f, now_ms, known.now_idx),
            pairs: known.pairs,
            refused,
        };
        lemma_times_held(start, known.occurrences.len(), now_ms, config);
        let after = correlate_cross::absorbed_all(s, findings, now_ms, config).0;
        let done = start.held_against_first(known.occurrences.len(), now_ms, config);
        assert(after.occurrences == line(done));
        assert(ingest_times(line(start)) =~= ingest_times(before.occurrences).push(now_ms));
        assert(ingest_times(after.occurrences) =~= ingest_times(s.occurrences) + Seq::new(
            findings.len(),
            |i: int| now_ms,
        ));
    }
}

/// On a clock that does not run backwards, only occurrences within the pairing horizon are left
/// after a batch, the new ones among them, still in order of ingest.
pub proof fn law_occurrences_are_bounded_by_the_horizon(
    s: CorrelatorView,
    findings: Seq<FindingView>,
    now_ms: u64,
    config: CorrelationConfig,
    i: int,
    j: int,
)
    requires
        forall|i: int, j: int|
            #![trigger s.occurrences[i], s.occurrences[j]]
            0 <= i < j < s.occurrences.len() ==> s.occurrences[i].ingest_ms
                <= s.occurrences[j].ingest_ms,
        forall|i: int| 0 <= i < s.occurrences.len() ==> (#[trigger] s.occurrences[i]).ingest_ms
            <= now_ms,
        0 <= i <= j < correlate_cross::ingested(
            s,
            findings,
            now_ms,
            config,
        ).0.occurrences.len(),
    ensures
        ({
            let left = correlate_cross::ingested(s, findings, now_ms, config).0.occurrences;
            &&& left[i].ingest_ms + config.lag_threshold_ms + config.ingest_skew_ms >= now_ms
            &&& left[i].ingest_ms <= left[j].ingest_ms <= now_ms
            &&& left.len() >= findings.len()
        }),
{
    let on_time = s.advanced(now_ms, config);
    let reach = config.reach();
    let k = lemma_suffix(s.occurrences, reach, now_ms);
    let near = correlate_cross::without_stale(s.occurrences, reach, now_ms);
    lemma_front_is_near(s.occurrences, reach, now_ms);
    let swept = on_time.in_horizon(now_ms, config).in_window(now_ms, config).pruned();
    assert(swept.occurrences == near);
    lemma_times_absorbed(swept, findings, now_ms, config);
    let left = correlate_cross::ingested(s, findings, now_ms, config).0.occurrences;
    let times = ingest_times(left);
    assert(times == ingest_times(near) + Seq::new(findings.len(), |i: int| now_ms));
    assert(times[i] == left[i].ingest_ms && times[j] == left[j].ingest_ms);
    assert forall|m: int| 0 <= m < near.len() implies near[0].ingest_ms <= (
    #[trigger] near[m]).ingest_ms <= now_ms by {
        assert(near[m] == s.occurrences[m + k] && near[0] == s.occurrences[k]);
    }
    if j < near.len() {
        assert(near[i] == s.occurrences[i + k] && near[j] == s.occurrences[j + k]);
        assert(times[i] == near[i].ingest_ms && times[j] == near[j].ingest_ms);
    } else if i < near.len() {
        assert(times[i] == near[i].ingest_ms);
    }
}

proof fn lemma_front_is_near(occurrences: Seq<OccurrenceView>, reach: u64, now_ms: u64)
    ensures
        ({
            let near = correlate_cross::without_stale(occurrences, reach, now_ms);
            near.len() > 0 ==> arith::capped(near[0].ingest_ms + reach) >= now_ms
        }),
    decreases occurrences.len(),
{
    if occurrences.len() > 0 && arith::capped(occurrences[0].ingest_ms + reach) < now_ms {
        lemma_front_is_near(occurrences.drop_first(), reach, now_ms);
    }
}

/// A source counts once per pair: matching the two again refreshes the pair and counts nothing.
pub proof fn law_source_counts_once_per_pair(
    p: Pairing,
    i: int,
    now_ms: u64,
    later_ms: u64,
    config: CorrelationConfig,
)
    requires
        0 <= i < p.occurrences.len(),
        p.matches_at(i, config),
        !p.is_refused(i, config),
    ensures
        ({
            let once = p.held_against(i, now_ms, config);
            let twice = once.held_against(i, later_ms, config);
            let at = correlate_cross::pair_position(once.pairs, p.key(i));
            let counted = once.pairs[at].state;
            &&& once.source(i).counted_targets.contains(p.target(i).endpoint)
            &&& at < once.pairs.len()
            &&& twice.occurrences == once.occurrences
            &&& twice.incoming == once.incoming
            &&& twice.refused == once.refused
            &&& twice.pairs == once.pairs.update(
                at,
                PairView {
                    key: p.key(i),
                    state: counted.matched(later_ms, p.source(i).trace_id, p.target(i).trace_id),
                },
            )
        }),
{
    let key = p.key(i);
    let at = correlate_cross::pair_position(p.pairs, key);
    lemma_pair_found(p.pairs, key);
    let after = p.pairs_after(i, now_ms);
    assert(after[at].key == key);
    correlate_cross::lemma_pair_position(after, key, at);
    let source = p.source_after(i);
    if !p.is_repeat(i) {
        let counted = p.source(i).counted_targets;
        assert(source.counted_targets[counted.len() as int] == p.target(i).endpoint);
    }
    let once = p.held_against(i, now_ms, config);
    assert(once.source(i) == source);
    assert(once.target(i) == p.target(i));
    assert(once.key(i) == key);
    assert(once.is_repeat(i));
    assert(once.occurrences =~= once.held_against(i, later_ms, config).occurrences);
}

/// Whichever of two findings arrives first, the earlier event is the source: unless they are
/// simultaneous, matching them counts the same for the same pair.
pub proof fn law_matching_does_not_depend_on_arrival_order(
    p: Pairing,
    q: Pairing,
    i: int,
    j: int,
    now_ms: u64,
    config: CorrelationConfig,
)
    requires
        p.incoming == q.occurrences[j],
        q.incoming == p.occurrences[i],
        p.pairs == q.pairs,
        p.refused == q.refused,
        p.incoming.event_ms != q.incoming.event_ms,
    ensures
        p.matches_at(i, config) == q.matches_at(j, config),
        p.key(i) == q.key(j),
        p.source_after(i) == q.source_after(j),
        p.held_against(i, now_ms, config).pairs == q.held_against(j, now_ms, config).pairs,
        p.held_against(i, now_ms, config).refused == q.held_against(j, now_ms, config).refused,
{
    assert(p.source(i) == q.source(j));
    assert(p.target(i) == q.target(j));
    assert(p.state_after(i, now_ms) == q.state_after(j, now_ms));
}

/// A batch reports lost pairs if and only if it refused one at the cap.
pub proof fn law_losses_are_reported_when_pairs_are_refused(
    s: CorrelatorView,
    findings: Seq<FindingView>,
    now_ms: u64,
    config: CorrelationConfig,
)
    ensures
        ({
            let swept = s.advanced(now_ms, config).in_horizon(now_ms, config).in_window(
                now_ms,
                config,
            ).pruned();
            let refused = correlate_cross::absorbed_all(swept, findings, now_ms, config).1;
            correlate_cross::ingested(s, findings, now_ms, config).1 > 0 <==> refused.count() > 0
        }),
{
}

pub(crate) proof fn lemma_refusals_at_the_cap(
    s: CorrelatorView,
    findings: Seq<FindingView>,
    now_ms: u64,
    config: CorrelationConfig,
)
    ensures
        ({
            let (held, refused) = correlate_cross::absorbed_all(s, findings, now_ms, config);
            refused.count() > 0 ==> held.pairs.len() >= config.max_tracked_pairs
        }),
    decreases findings.len(),
{
    if findings.len() > 0 {
        lemma_refusals_at_the_cap(s, findings.drop_last(), now_ms, config);
        let (before, refused) = correlate_cross::absorbed_all(
            s,
            findings.drop_last(),
            now_ms,
            config,
        );
        let f = findings.last();
        let known = before.interned(endpoint::endpoint_of(f));
        let start = Pairing {
            occurrences: known.occurrences,
            incoming: correlate_cross::occurrence_of(f, now_ms, known.now_idx),
            pairs: known.pairs,
            refused,
        };
        lemma_held_at_the_cap(start, known.occurrences.len(), now_ms, config);
    }
}

proof fn lemma_held_at_the_cap(p: Pairing, n: nat, now_ms: u64, config: CorrelationConfig)
    requires
        p.refused.count() > 0 ==> p.pairs.len() >= config.max_tracked_pairs,
    ensures
        ({
            let done = p.held_against_first(n, now_ms, config);
            &&& done.pairs.len() >= p.pairs.len()
            &&& done.refused.count() > 0 ==> done.pairs.len() >= config.max_tracked_pairs
        }),
    decreases n,
{
    if n > 0 {
        lemma_held_at_the_cap(p, (n - 1) as nat, now_ms, config);
        lemma_step_at_the_cap(
            p.held_against_first((n - 1) as nat, now_ms, config),
            n - 1,
            now_ms,
            config,
        );
    }
}

proof fn lemma_step_at_the_cap(p: Pairing, i: int, now_ms: u64, config: CorrelationConfig)
    ensures
        ({
            let done = p.held_against(i, now_ms, config);
            &&& done.pairs.len() >= p.pairs.len()
            &&& done.refused == p.refused || done.pairs.len() >= config.max_tracked_pairs
        }),
{
    if p.matches_at(i, config) && !p.is_refused(i, config) {
        lemma_pair_found(p.pairs, p.key(i));
        assert(p.held_against(i, now_ms, config).pairs == p.pairs_after(i, now_ms));
    }
}

/// A batch that reports losses leaves room: fewer pairs than a positive cap are tracked afterwards,
/// no more than nine tenths of it, so that the next batch can admit a new one.
pub proof fn law_losses_free_room(
    s: CorrelatorView,
    findings: Seq<FindingView>,
    now_ms: u64,
    config: CorrelationConfig,
)
    requires
        consistent(s, config),
        config.max_tracked_pairs > 0,
        correlate_cross::ingested(s, findings, now_ms, config).1 > 0,
    ensures
        ({
            let left = correlate_cross::ingested(s, findings, now_ms, config).0.pairs;
            &&& left.len() < config.max_tracked_pairs
            &&& left.len() <= config.room()
            &&& forall|p: Pairing, i: int|
                p.pairs.len() <= left.len() ==> !(#[trigger] p.is_refused(i, config))
        }),
{
    let swept = s.advanced(now_ms, config).in_horizon(now_ms, config).in_window(
        now_ms,
        config,
    ).pruned();
    lemma_swept(s, now_ms, config);
    lemma_absorbed_all(swept, findings, now_ms, config);
    lemma_refusals_at_the_cap(swept, findings, now_ms, config);
    let (held, refused) = correlate_cross::absorbed_all(swept, findings, now_ms, config);
    let n = correlate_cross::to_evict(held.pairs.len(), config);
    assert(held.pairs.len() == config.max_tracked_pairs);
    correlate_cross::lemma_eviction_size(held.pairs, held.now_idx, n);
}

/// A refused pair counts once below the ceiling and once more each time above it; the set of
/// refused pairs never outgrows the ceiling.
pub proof fn law_refusals_are_bounded_and_counted(refused: RefusedView, key: PairKeyView)
    requires
        refused.seen.len() <= correlate_cross::REFUSED_CEILING,
        refused.beyond_ceiling < usize::MAX - correlate_cross::REFUSED_CEILING,
    ensures
        refused.recorded(key).seen.len() <= correlate_cross::REFUSED_CEILING,
        refused.recorded(key).count() == refused.count() + (if refused.seen.len()
            < correlate_cross::REFUSED_CEILING && refused.seen.contains(key) {
            0int
        } else {
            1int
        }),
{
}

/// Up to 8192 refused pairs are told apart and counted once each; further refusals are all counted.
pub proof fn law_refused_pairs_are_told_apart(refused: RefusedView, key: PairKeyView)
    ensures
        refused.seen.len() < 8_192 && refused.seen.contains(key) ==> refused.recorded(key) == refused,
        refused.seen.len() < 8_192 && !refused.seen.contains(key) ==> refused.recorded(key).seen
            == refused.seen.push(key) && refused.recorded(key).beyond_ceiling
            == refused.beyond_ceiling,
        refused.seen.len() >= 8_192 && refused.beyond_ceiling < usize::MAX ==> refused.recorded(
            key,
        ).seen == refused.seen && refused.recorded(key).beyond_ceiling == refused.beyond_ceiling
            + 1,
        RefusedView::none().count() == 0,
        refused.seen.len() + refused.beyond_ceiling <= usize::MAX ==> refused.count()
            == refused.seen.len() + refused.beyond_ceiling,
{
}

} // verus!

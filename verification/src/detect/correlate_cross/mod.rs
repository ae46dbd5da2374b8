//! Cross-trace temporal correlation engine for daemon mode.
//!
//! Detects recurring co-occurrences between findings from different services within a time window.
//! Findings pair on their own first-span timestamps (event time), while retention and eviction run
//! on the daemon's ingest clock.

pub mod endpoint;
pub mod grid;
pub mod history;
pub mod laws;
pub mod pair;

pub use crate::detect::correlate_cross::endpoint::CorrelationEndpoint;
pub use crate::detect::correlate_cross::grid::HalfWindowCount;
pub use crate::detect::correlate_cross::pair::{PairKey, PairState};

use crate::arith;
use crate::detect::correlate_cross::endpoint::EndpointView;
use crate::detect::correlate_cross::pair::{
    PairKeyView, PairStateView, MAX_SAMPLE_TRACE_ID_BYTES,
};
use crate::detect::finding;
use crate::detect::{Finding, FindingView};
use crate::event;
use crate::order;
use crate::order::Ranked;
use crate::permutation;
use crate::text;
use crate::time;
use vstd::prelude::*;

verus! {

/// A fraction.
#[derive(Debug, Clone, Copy, PartialEq, Eq, Structural)]
pub struct Ratio {
    pub numerator: u64,
    pub denominator: u64,
}

/// Configuration for cross-trace correlation.
#[derive(Debug, Clone, Copy)]
pub struct CorrelationConfig {
    /// Whether cross-trace correlation runs at all.
    pub enabled: bool,
    /// Rolling window in milliseconds.
    pub window_ms: u64,
    /// Max delay between correlated findings in milliseconds.
    pub lag_threshold_ms: u64,
    /// Minimum co-occurrence count to report a correlation.
    pub min_co_occurrences: u32,
    /// Minimum confidence to report a correlation.
    pub min_confidence: Ratio,
    /// Maximum tracked pairs.
    pub max_tracked_pairs: usize,
    /// Extra ingest-time reach, so that findings analysed in different ticks still pair.
    pub ingest_skew_ms: u64,
}

impl Default for CorrelationConfig {
    fn default() -> (r: Self)
        ensures
            !r.enabled,
            r.window_ms == 600_000,
            r.lag_threshold_ms == 5_000,
            r.min_co_occurrences == 5,
            r.min_confidence == (Ratio { numerator: 7, denominator: 10 }),
            r.max_tracked_pairs == 10_000,
            r.ingest_skew_ms == 60_000,
    {
        CorrelationConfig {
            enabled: false,
            window_ms: 600_000,
            lag_threshold_ms: 5_000,
            min_co_occurrences: 5,
            min_confidence: Ratio { numerator: 7, denominator: 10 },
            max_tracked_pairs: 10_000,
            ingest_skew_ms: 60_000,
        }
    }
}

impl CorrelationConfig {
    /// The length of a bucket of the grid: half a window.
    pub open spec fn half_window(self) -> u64 {
        if self.window_ms / 2 > 1 {
            self.window_ms / 2
        } else {
            1
        }
    }

    /// How long after its ingest a finding can still pair.
    pub open spec fn reach(self) -> u64 {
        arith::capped(self.lag_threshold_ms + self.ingest_skew_ms)
    }

    /// How many pairs are left after an eviction: nine tenths of the cap.
    pub open spec fn room(self) -> int {
        self.max_tracked_pairs - self.max_tracked_pairs / 10
    }
}

/// Counts pairs refused at the cap within one batch.
///
/// A refused pair counts once per batch however many occurrences matched it. The set is bounded:
/// past the ceiling the count degrades to occurrences, which overstates rather than hides.
#[derive(Debug)]
pub struct RefusedPairs {
    pub seen: Vec<PairKey>,
    pub beyond_ceiling: usize,
}

/// How many refused pairs are told apart.
pub const REFUSED_CEILING: usize = 8_192;

/// The mathematical value of [`RefusedPairs`].
pub struct RefusedView {
    pub seen: Seq<PairKeyView>,
    pub beyond_ceiling: usize,
}

impl View for RefusedPairs {
    type V = RefusedView;

    open spec fn view(&self) -> RefusedView {
        RefusedView {
            seen: self.seen@.map_values(|k: PairKey| k@),
            beyond_ceiling: self.beyond_ceiling,
        }
    }
}

impl RefusedView {
    /// Nothing refused.
    pub open spec fn none() -> RefusedView {
        RefusedView { seen: Seq::empty(), beyond_ceiling: 0 }
    }

    /// After another refusal.
    pub open spec fn recorded(self, key: PairKeyView) -> RefusedView {
        if self.seen.len() >= REFUSED_CEILING {
            RefusedView {
                beyond_ceiling: arith::capped_count(self.beyond_ceiling + 1),
                ..self
            }
        } else if self.seen.contains(key) {
            self
        } else {
            RefusedView { seen: self.seen.push(key), ..self }
        }
    }

    /// How many refusals count.
    pub open spec fn count(self) -> usize {
        arith::capped_count(self.seen.len() + self.beyond_ceiling)
    }
}

impl Default for RefusedPairs {
    fn default() -> (r: Self)
        ensures
            r@ == RefusedView::none(),
    {
        let r = RefusedPairs { seen: Vec::new(), beyond_ceiling: 0 };
        assert(r@.seen =~= Seq::empty());
        r
    }
}

impl RefusedPairs {
    /// Record a refusal.
    pub fn record(&mut self, key: PairKey)
        ensures
            final(self)@ == old(self)@.recorded(key@),
    {
        if self.seen.len() < REFUSED_CEILING {
            let mut i: usize = 0;
            while i < self.seen.len()
                invariant
                    *self == *old(self),
                    self.seen@.len() < REFUSED_CEILING,
                    i <= self.seen@.len(),
                    forall|k: int| 0 <= k < i ==> (#[trigger] self.seen@[k])@ != key@,
                decreases self.seen@.len() - i,
            {
                if self.seen[i].same(&key) {
                    assert(self@.seen[i as int] == key@);
                    assert(self@.seen.contains(key@));
                    return;
                }
                i += 1;
            }
            proof {
                if self@.seen.contains(key@) {
                    let k = choose|k: int| 0 <= k < self@.seen.len() && self@.seen[k] == key@;
                    assert(self.seen@[k]@ == key@);
                }
            }
            self.seen.push(key);
            assert(self@.seen =~= old(self)@.seen.push(key@));
        } else {
            self.beyond_ceiling = arith::capped_count_sum(self.beyond_ceiling, 1);
        }
    }

    /// How many refusals count.
    pub fn total(&self) -> (r: usize)
        ensures
            r == self@.count(),
    {
        arith::capped_count_sum(self.seen.len(), self.beyond_ceiling)
    }
}

/// A detected temporal correlation between findings across services.
#[derive(Debug, Clone)]
pub struct CrossTraceCorrelation {
    /// Leading endpoint: the finding with the earlier first-span timestamp.
    pub source: CorrelationEndpoint,
    /// Trailing endpoint: the finding that started after the source within the lag threshold.
    pub target: CorrelationEndpoint,
    /// Times source and target fired together over roughly the rolling window.
    pub co_occurrence_count: u32,
    /// Total occurrences of the source endpoint over the same buckets.
    pub source_total_occurrences: u32,
    /// The co-occurrences out of the occurrences of the source, at most one.
    pub confidence: Ratio,
    /// Twice the median event-time lag, in milliseconds, between source and target.
    pub twice_median_lag_ms: u128,
    /// ISO 8601 timestamp of the first observed co-occurrence.
    pub first_seen: String,
    /// ISO 8601 timestamp of the most recent observed co-occurrence.
    pub last_seen: String,
    /// Trace id of the most recent target-side finding that completed this pair.
    pub sample_trace_id: Option<String>,
    /// Trace id of the source-side finding of the most recent co-occurrence.
    pub source_sample_trace_id: Option<String>,
}

/// The mathematical value of a [`CrossTraceCorrelation`].
pub struct CorrelationView {
    pub source: EndpointView,
    pub target: EndpointView,
    pub co_occurrence_count: u32,
    pub source_total_occurrences: u32,
    pub confidence: Ratio,
    pub twice_median_lag_ms: nat,
    pub first_seen: Seq<char>,
    pub last_seen: Seq<char>,
    pub sample_trace_id: Option<Seq<char>>,
    pub source_sample_trace_id: Option<Seq<char>>,
}

impl View for CrossTraceCorrelation {
    type V = CorrelationView;

    open spec fn view(&self) -> CorrelationView {
        CorrelationView {
            source: self.source@,
            target: self.target@,
            co_occurrence_count: self.co_occurrence_count,
            source_total_occurrences: self.source_total_occurrences,
            confidence: self.confidence,
            twice_median_lag_ms: self.twice_median_lag_ms as nat,
            first_seen: self.first_seen@,
            last_seen: self.last_seen@,
            sample_trace_id: event::opt_view(self.sample_trace_id),
            source_sample_trace_id: event::opt_view(self.source_sample_trace_id),
        }
    }
}

/// The value of each correlation.
pub open spec fn correlation_views(s: Seq<CrossTraceCorrelation>) -> Seq<CorrelationView> {
    s.map_values(|c: CrossTraceCorrelation| c@)
}

/// A recent finding occurrence, kept for the pairing horizon only.
#[derive(Debug, Clone)]
pub struct FindingOccurrence {
    pub endpoint: CorrelationEndpoint,
    /// First-span timestamp of the finding, the pairing clock.
    pub event_ms: u64,
    /// Daemon time at ingest, the eviction clock.
    pub ingest_ms: u64,
    /// Grid index at ingest, the bucket its pairs are credited to as a source.
    pub ingest_idx: u64,
    /// Capped trace id.
    pub trace_id: String,
    /// Targets this occurrence already counted for as a source.
    pub counted_targets: Vec<CorrelationEndpoint>,
}

/// The mathematical value of a [`FindingOccurrence`].
pub struct OccurrenceView {
    pub endpoint: EndpointView,
    pub event_ms: u64,
    pub ingest_ms: u64,
    pub ingest_idx: u64,
    pub trace_id: Seq<char>,
    pub counted_targets: Seq<EndpointView>,
}

impl View for FindingOccurrence {
    type V = OccurrenceView;

    open spec fn view(&self) -> OccurrenceView {
        OccurrenceView {
            endpoint: self.endpoint@,
            event_ms: self.event_ms,
            ingest_ms: self.ingest_ms,
            ingest_idx: self.ingest_idx,
            trace_id: self.trace_id@,
            counted_targets: endpoint::endpoint_views(self.counted_targets@),
        }
    }
}

/// A tracked pair and its state.
#[derive(Debug, Clone)]
pub struct TrackedPair {
    pub key: PairKey,
    pub state: PairState,
}

/// The mathematical value of a [`TrackedPair`].
pub struct PairView {
    pub key: PairKeyView,
    pub state: PairStateView,
}

impl View for TrackedPair {
    type V = PairView;

    open spec fn view(&self) -> PairView {
        PairView { key: self.key@, state: self.state@ }
    }
}

/// A known endpoint and how often it occurred.
#[derive(Debug, Clone)]
pub struct EndpointCount {
    pub endpoint: CorrelationEndpoint,
    pub count: HalfWindowCount,
}

/// The mathematical value of an [`EndpointCount`].
pub struct EndpointCountView {
    pub endpoint: EndpointView,
    pub count: HalfWindowCount,
}

impl View for EndpointCount {
    type V = EndpointCountView;

    open spec fn view(&self) -> EndpointCountView {
        EndpointCountView { endpoint: self.endpoint@, count: self.count }
    }
}

/// Cross-trace correlator. Owned by the daemon event loop.
///
/// Keeps the findings of the last `lag_threshold_ms + ingest_skew_ms` of ingest time for pairing,
/// and window-scoped counters for reporting, so memory grows with the distinct endpoints of a
/// window, not with occurrences.
pub struct CrossTraceCorrelator {
    /// Recent occurrences, in order of ingest.
    pub occurrences: Vec<FindingOccurrence>,
    /// Tracked pairs, in order of creation.
    pub pair_counts: Vec<TrackedPair>,
    /// Known endpoints.
    pub endpoints: Vec<EndpointCount>,
    /// Current index on the half-window grid, never decreasing.
    pub now_idx: u64,
    /// Grid index of the last endpoint prune.
    pub pruned_idx: u64,
    pub config: CorrelationConfig,
}

/// The mathematical value of a [`CrossTraceCorrelator`], apart from its configuration.
pub struct CorrelatorView {
    pub occurrences: Seq<OccurrenceView>,
    pub pairs: Seq<PairView>,
    pub endpoints: Seq<EndpointCountView>,
    pub now_idx: u64,
    pub pruned_idx: u64,
}

/// The value of each occurrence.
pub open spec fn occurrence_views(s: Seq<FindingOccurrence>) -> Seq<OccurrenceView> {
    s.map_values(|o: FindingOccurrence| o@)
}

/// The value of each pair.
pub open spec fn pair_views(s: Seq<TrackedPair>) -> Seq<PairView> {
    s.map_values(|p: TrackedPair| p@)
}

/// The value of each endpoint's count.
pub open spec fn count_views(s: Seq<EndpointCount>) -> Seq<EndpointCountView> {
    s.map_values(|e: EndpointCount| e@)
}

impl View for CrossTraceCorrelator {
    type V = CorrelatorView;

    open spec fn view(&self) -> CorrelatorView {
        CorrelatorView {
            occurrences: occurrence_views(self.occurrences@),
            pairs: pair_views(self.pair_counts@),
            endpoints: count_views(self.endpoints@),
            now_idx: self.now_idx,
            pruned_idx: self.pruned_idx,
        }
    }
}

/// Where a pair stands first; the number of pairs where it stands nowhere.
pub open spec fn pair_position(pairs: Seq<PairView>, key: PairKeyView) -> int
    decreases pairs.len(),
{
    if pairs.len() == 0 || pairs[0].key == key {
        0
    } else {
        1 + pair_position(pairs.drop_first(), key)
    }
}

/// Where an endpoint stands first; the number of endpoints where it stands nowhere.
pub open spec fn endpoint_position(endpoints: Seq<EndpointCountView>, e: EndpointView) -> int
    decreases endpoints.len(),
{
    if endpoints.len() == 0 || endpoints[0].endpoint == e {
        0
    } else {
        1 + endpoint_position(endpoints.drop_first(), e)
    }
}

/// How often an endpoint occurred.
pub open spec fn count_of(endpoints: Seq<EndpointCountView>, e: EndpointView) -> HalfWindowCount {
    let at = endpoint_position(endpoints, e);
    if at < endpoints.len() {
        endpoints[at].count
    } else {
        HalfWindowCount::zero()
    }
}

/// The occurrences without those at the front that are past the pairing horizon.
pub open spec fn without_stale(
    occurrences: Seq<OccurrenceView>,
    reach: u64,
    now_ms: u64,
) -> Seq<OccurrenceView>
    decreases occurrences.len(),
{
    if occurrences.len() > 0 && arith::capped(occurrences[0].ingest_ms + reach) < now_ms {
        without_stale(occurrences.drop_first(), reach, now_ms)
    } else {
        occurrences
    }
}

/// Whether an occurrence or a pair refers to an endpoint.
pub open spec fn pinned(s: CorrelatorView, e: EndpointView) -> bool {
    ||| exists|i: int|
        0 <= i < s.occurrences.len() && ((#[trigger] s.occurrences[i]).endpoint == e
            || s.occurrences[i].counted_targets.contains(e))
    ||| exists|i: int|
        0 <= i < s.pairs.len() && ((#[trigger] s.pairs[i]).key.source == e
            || s.pairs[i].key.target == e)
}

impl CorrelatorView {
    /// A correlator that has seen nothing.
    pub open spec fn empty() -> CorrelatorView {
        CorrelatorView {
            occurrences: Seq::empty(),
            pairs: Seq::empty(),
            endpoints: Seq::empty(),
            now_idx: 0,
            pruned_idx: 0,
        }
    }

    /// On the grid step of `now_ms`, or on a later one that was reached before.
    pub open spec fn advanced(self, now_ms: u64, config: CorrelationConfig) -> CorrelatorView {
        let idx = now_ms / config.half_window();
        CorrelatorView {
            now_idx: if idx > self.now_idx {
                idx
            } else {
                self.now_idx
            },
            ..self
        }
    }

    /// Without occurrences that are past the pairing horizon.
    pub open spec fn in_horizon(self, now_ms: u64, config: CorrelationConfig) -> CorrelatorView {
        CorrelatorView {
            occurrences: without_stale(self.occurrences, config.reach(), now_ms),
            ..self
        }
    }

    /// Without pairs that did not match within the window.
    pub open spec fn in_window(self, now_ms: u64, config: CorrelationConfig) -> CorrelatorView {
        CorrelatorView {
            pairs: self.pairs.filter(
                |p: PairView| p.state.last_seen_ms + config.window_ms >= now_ms,
            ),
            ..self
        }
    }

    /// Once per grid step, without endpoints that have no count left in the window and that nothing
    /// refers to.
    pub open spec fn pruned(self) -> CorrelatorView {
        if self.now_idx == self.pruned_idx {
            self
        } else {
            CorrelatorView {
                endpoints: self.endpoints.filter(
                    |e: EndpointCountView|
                        e.count.in_window(self.now_idx) > 0 || pinned(self, e.endpoint),
                ),
                pruned_idx: self.now_idx,
                ..self
            }
        }
    }

    /// After one more occurrence of an endpoint.
    pub open spec fn interned(self, e: EndpointView) -> CorrelatorView {
        let at = endpoint_position(self.endpoints, e);
        CorrelatorView {
            endpoints: if at < self.endpoints.len() {
                self.endpoints.update(
                    at,
                    EndpointCountView {
                        endpoint: e,
                        count: self.endpoints[at].count.counted(self.now_idx),
                    },
                )
            } else {
                self.endpoints.push(
                    EndpointCountView {
                        endpoint: e,
                        count: HalfWindowCount::zero().counted(self.now_idx),
                    },
                )
            },
            ..self
        }
    }
}

/// The occurrence that a finding ingested at `now_ms` stands for. A timestamp that cannot be read
/// counts as the time of ingest.
pub open spec fn occurrence_of(f: FindingView, now_ms: u64, now_idx: u64) -> OccurrenceView {
    OccurrenceView {
        endpoint: endpoint::endpoint_of(f),
        event_ms: match time::timestamp_ms(f.first_timestamp) {
            Some(ms) => ms,
            None => now_ms,
        },
        ingest_ms: now_ms,
        ingest_idx: now_idx,
        trace_id: text::utf8_prefix(f.trace_id, MAX_SAMPLE_TRACE_ID_BYTES as nat),
        counted_targets: Seq::empty(),
    }
}

/// How far apart two instants are.
pub open spec fn distance(a: u64, b: u64) -> u64 {
    if a > b {
        (a - b) as u64
    } else {
        (b - a) as u64
    }
}

/// Where the pairing of an incoming finding stands.
pub struct Pairing {
    pub occurrences: Seq<OccurrenceView>,
    pub incoming: OccurrenceView,
    pub pairs: Seq<PairView>,
    pub refused: RefusedView,
}

impl Pairing {
    /// Whether the incoming finding matches occurrence `i`: close enough in event time, and
    /// pairable.
    pub open spec fn matches_at(self, i: int, config: CorrelationConfig) -> bool {
        distance(self.occurrences[i].event_ms, self.incoming.event_ms) <= config.lag_threshold_ms
            && endpoint::may_pair(self.occurrences[i].endpoint, self.incoming.endpoint)
    }

    /// Whether the incoming finding leads: its event is the earlier one. Ties keep arrival order.
    pub open spec fn incoming_leads(self, i: int) -> bool {
        self.incoming.event_ms < self.occurrences[i].event_ms
    }

    /// The leading one of the two.
    pub open spec fn source(self, i: int) -> OccurrenceView {
        if self.incoming_leads(i) {
            self.incoming
        } else {
            self.occurrences[i]
        }
    }

    /// The trailing one of the two.
    pub open spec fn target(self, i: int) -> OccurrenceView {
        if self.incoming_leads(i) {
            self.occurrences[i]
        } else {
            self.incoming
        }
    }

    /// The pair that the two make up.
    pub open spec fn key(self, i: int) -> PairKeyView {
        PairKeyView { source: self.source(i).endpoint, target: self.target(i).endpoint }
    }

    /// Whether the pair is tracked already.
    pub open spec fn is_tracked(self, i: int) -> bool {
        pair_position(self.pairs, self.key(i)) < self.pairs.len()
    }

    /// Whether the pair is refused at the cap.
    pub open spec fn is_refused(self, i: int, config: CorrelationConfig) -> bool {
        !self.is_tracked(i) && self.pairs.len() >= config.max_tracked_pairs
    }

    /// Whether the source already counted for this target.
    pub open spec fn is_repeat(self, i: int) -> bool {
        self.source(i).counted_targets.contains(self.target(i).endpoint)
    }

    /// The state of the pair after the match. A source counts once per pair, in the bucket of its
    /// own ingest.
    pub open spec fn state_after(self, i: int, now_ms: u64) -> PairStateView {
        let before = if self.is_tracked(i) {
            self.pairs[pair_position(self.pairs, self.key(i))].state
        } else {
            PairStateView::fresh(now_ms, self.key(i))
        };
        let seen = before.matched(now_ms, self.source(i).trace_id, self.target(i).trace_id);
        if self.is_repeat(i) {
            seen
        } else {
            seen.counted(
                self.source(i).ingest_idx,
                distance(self.occurrences[i].event_ms, self.incoming.event_ms),
            )
        }
    }

    /// The pairs after the match.
    pub open spec fn pairs_after(self, i: int, now_ms: u64) -> Seq<PairView> {
        let entry = PairView { key: self.key(i), state: self.state_after(i, now_ms) };
        if self.is_tracked(i) {
            self.pairs.update(pair_position(self.pairs, self.key(i)), entry)
        } else {
            self.pairs.push(entry)
        }
    }

    /// The source after the match.
    pub open spec fn source_after(self, i: int) -> OccurrenceView {
        if self.is_repeat(i) {
            self.source(i)
        } else {
            OccurrenceView {
                counted_targets: self.source(i).counted_targets.push(self.target(i).endpoint),
                ..self.source(i)
            }
        }
    }

    /// After the incoming finding was held against occurrence `i`.
    pub open spec fn held_against(
        self,
        i: int,
        now_ms: u64,
        config: CorrelationConfig,
    ) -> Pairing {
        if !self.matches_at(i, config) {
            self
        } else if self.is_refused(i, config) {
            Pairing { refused: self.refused.recorded(self.key(i)), ..self }
        } else if self.incoming_leads(i) {
            Pairing {
                incoming: self.source_after(i),
                pairs: self.pairs_after(i, now_ms),
                ..self
            }
        } else {
            Pairing {
                occurrences: self.occurrences.update(i, self.source_after(i)),
                pairs: self.pairs_after(i, now_ms),
                ..self
            }
        }
    }

    /// After the incoming finding was held against the first `n` occurrences.
    pub open spec fn held_against_first(
        self,
        n: nat,
        now_ms: u64,
        config: CorrelationConfig,
    ) -> Pairing
        decreases n,
    {
        if n == 0 {
            self
        } else {
            self.held_against_first((n - 1) as nat, now_ms, config).held_against(
                n - 1,
                now_ms,
                config,
            )
        }
    }
}

/// The correlator and the refused pairs after one more finding.
pub open spec fn absorbed(
    s: CorrelatorView,
    refused: RefusedView,
    f: FindingView,
    now_ms: u64,
    config: CorrelationConfig,
) -> (CorrelatorView, RefusedView) {
    let known = s.interned(endpoint::endpoint_of(f));
    let done = Pairing {
        occurrences: known.occurrences,
        incoming: occurrence_of(f, now_ms, known.now_idx),
        pairs: known.pairs,
        refused,
    }.held_against_first(known.occurrences.len(), now_ms, config);
    (
        CorrelatorView {
            occurrences: done.occurrences.push(done.incoming),
            pairs: done.pairs,
            ..known
        },
        done.refused,
    )
}

/// The correlator and the refused pairs after a batch.
pub open spec fn absorbed_all(
    s: CorrelatorView,
    findings: Seq<FindingView>,
    now_ms: u64,
    config: CorrelationConfig,
) -> (CorrelatorView, RefusedView)
    decreases findings.len(),
{
    if findings.len() == 0 {
        (s, RefusedView::none())
    } else {
        let (before, refused) = absorbed_all(s, findings.drop_last(), now_ms, config);
        absorbed(before, refused, findings.last(), now_ms, config)
    }
}

/// What decides which pairs are evicted first: the windowed count, then the latest match.
#[derive(Debug, Clone, Copy, PartialEq, Eq, Structural)]
pub struct PairRank {
    pub co_occurrences: u32,
    pub last_seen_ms: u64,
}

impl PairRank {
    /// Whether a pair of this rank goes before one of the other rank.
    pub open spec fn lower(self, other: PairRank) -> bool {
        self.co_occurrences < other.co_occurrences || (self.co_occurrences == other.co_occurrences
            && self.last_seen_ms < other.last_seen_ms)
    }

    fn is_lower(&self, other: &PairRank) -> (r: bool)
        ensures
            r == self.lower(*other),
    {
        self.co_occurrences < other.co_occurrences || (self.co_occurrences == other.co_occurrences
            && self.last_seen_ms < other.last_seen_ms)
    }
}

impl Ranked for PairRank {
    open spec fn rank_le(&self, other: &Self) -> bool {
        !other.lower(*self)
    }

    proof fn rank_total(a: Self, b: Self) {
    }

    proof fn rank_transitive(a: Self, b: Self, c: Self) {
    }

    fn may_precede(&self, other: &Self) -> (r: bool) {
        !other.is_lower(self)
    }
}

/// The rank of a pair.
pub open spec fn rank_of(p: PairView, now_idx: u64) -> PairRank {
    PairRank {
        co_occurrences: p.state.co.in_window(now_idx),
        last_seen_ms: p.state.last_seen_ms,
    }
}

/// The rank of each pair.
pub open spec fn ranks(pairs: Seq<PairView>, now_idx: u64) -> Seq<PairRank> {
    pairs.map_values(|p: PairView| rank_of(p, now_idx))
}

/// The ranks below a threshold.
pub open spec fn below(threshold: PairRank) -> spec_fn(PairRank) -> bool {
    |r: PairRank| r.lower(threshold)
}

/// The ranks equal to a threshold.
pub open spec fn tied(threshold: PairRank) -> spec_fn(PairRank) -> bool {
    |r: PairRank| r == threshold
}

/// The pairs without those below a rank, and without the first `extra` of that rank.
pub open spec fn survivors(
    pairs: Seq<PairView>,
    now_idx: u64,
    threshold: PairRank,
    extra: nat,
) -> Seq<PairView>
    decreases pairs.len(),
{
    if pairs.len() == 0 {
        Seq::empty()
    } else {
        let rest = survivors(pairs.drop_last(), now_idx, threshold, extra);
        let rank = rank_of(pairs.last(), now_idx);
        let ties = permutation::count_if(ranks(pairs.drop_last(), now_idx), tied(threshold));
        if rank.lower(threshold) || (rank == threshold && ties < extra) {
            rest
        } else {
            rest.push(pairs.last())
        }
    }
}

/// How many pairs an eviction at the cap takes: none below the cap, else down to nine tenths of it,
/// and at least one.
pub open spec fn to_evict(pairs: nat, config: CorrelationConfig) -> nat {
    if pairs == 0 || pairs < config.max_tracked_pairs {
        0
    } else if pairs - config.room() > 1 {
        (pairs - config.room()) as nat
    } else {
        1
    }
}

/// The pairs after an eviction of the `n` lowest ones.
pub open spec fn after_eviction(pairs: Seq<PairView>, now_idx: u64, n: nat) -> Seq<PairView> {
    if n == 0 {
        pairs
    } else {
        let threshold = order::ranked(ranks(pairs, now_idx))[n - 1];
        let lower = permutation::count_if(ranks(pairs, now_idx), below(threshold));
        survivors(pairs, now_idx, threshold, (n - lower) as nat)
    }
}

/// The correlator after a batch, and how many pairs were lost to the cap.
pub open spec fn ingested(
    s: CorrelatorView,
    findings: Seq<FindingView>,
    now_ms: u64,
    config: CorrelationConfig,
) -> (CorrelatorView, usize) {
    let swept = s.advanced(now_ms, config).in_horizon(now_ms, config).in_window(
        now_ms,
        config,
    ).pruned();
    let (held, refused) = absorbed_all(swept, findings, now_ms, config);
    let n = to_evict(held.pairs.len(), config);
    if refused.count() > 0 {
        (
            CorrelatorView { pairs: after_eviction(held.pairs, held.now_idx, n), ..held },
            arith::capped_count(n + refused.count()),
        )
    } else {
        (held, 0)
    }
}

/// Whether a fraction is at least another one.
pub open spec fn at_least(a: Ratio, b: Ratio) -> bool {
    a.numerator * b.denominator >= b.numerator * a.denominator
}

/// The correlation that a pair stands for, if it is above the thresholds and its source occurred in
/// the window.
pub open spec fn correlation_of(
    s: CorrelatorView,
    p: PairView,
    config: CorrelationConfig,
) -> Option<CorrelationView> {
    let co = p.state.co.in_window(s.now_idx);
    let total = count_of(s.endpoints, p.key.source).in_window(s.now_idx);
    let confidence = Ratio {
        numerator: (if co > total {
            total
        } else {
            co
        }) as u64,
        denominator: total as u64,
    };
    if co < config.min_co_occurrences || total == 0 || !at_least(
        confidence,
        config.min_confidence,
    ) {
        None
    } else {
        Some(
            CorrelationView {
                source: p.key.source,
                target: p.key.target,
                co_occurrence_count: co,
                source_total_occurrences: total,
                confidence,
                twice_median_lag_ms: pair::twice_median(p.state.lags_ms),
                first_seen: time::iso8601_of(p.state.first_seen_ms),
                last_seen: time::iso8601_of(p.state.last_seen_ms),
                sample_trace_id: p.state.last_trace_id,
                source_sample_trace_id: p.state.last_source_trace_id,
            },
        )
    }
}

/// The correlations that are reported, in the order of the pairs' creation.
pub open spec fn correlations(s: CorrelatorView, config: CorrelationConfig) -> Seq<
    CorrelationView,
> {
    s.pairs.filter_map(|p: PairView| correlation_of(s, p, config))
}

proof fn lemma_pair_position(pairs: Seq<PairView>, key: PairKeyView, at: int)
    requires
        0 <= at <= pairs.len(),
        forall|k: int| 0 <= k < at ==> (#[trigger] pairs[k]).key != key,
        at < pairs.len() ==> pairs[at].key == key,
    ensures
        pair_position(pairs, key) == at,
    decreases pairs.len(),
{
    if at > 0 {
        assert(pairs[0].key != key);
        let rest = pairs.drop_first();
        assert forall|k: int| 0 <= k < at - 1 implies (#[trigger] rest[k]).key != key by {
            assert(rest[k] == pairs[k + 1]);
        }
        lemma_pair_position(rest, key, at - 1);
    }
}

proof fn lemma_endpoint_position(endpoints: Seq<EndpointCountView>, e: EndpointView, at: int)
    requires
        0 <= at <= endpoints.len(),
        forall|k: int| 0 <= k < at ==> (#[trigger] endpoints[k]).endpoint != e,
        at < endpoints.len() ==> endpoints[at].endpoint == e,
    ensures
        endpoint_position(endpoints, e) == at,
    decreases endpoints.len(),
{
    if at > 0 {
        assert(endpoints[0].endpoint != e);
        let rest = endpoints.drop_first();
        assert forall|k: int| 0 <= k < at - 1 implies (#[trigger] rest[k]).endpoint != e by {
            assert(rest[k] == endpoints[k + 1]);
        }
        lemma_endpoint_position(rest, e, at - 1);
    }
}

fn position_of_pair(pairs: &Vec<TrackedPair>, key: &PairKey) -> (r: usize)
    ensures
        r == pair_position(pair_views(pairs@), key@),
        r <= pairs@.len(),
        r < pairs@.len() ==> pairs@[r as int].key@ == key@,
{
    let mut i: usize = 0;
    while i < pairs.len() && !pairs[i].key.same(key)
        invariant
            i <= pairs@.len(),
            forall|k: int| 0 <= k < i ==> (#[trigger] pairs@[k]).key@ != key@,
        decreases pairs@.len() - i,
    {
        i += 1;
    }
    proof {
        assert forall|k: int| 0 <= k < i implies (#[trigger] pair_views(pairs@)[k]).key
            != key@ by {
            assert(pairs@[k].key@ != key@);
        }
        lemma_pair_position(pair_views(pairs@), key@, i as int);
    }
    i
}

fn position_of_endpoint(endpoints: &Vec<EndpointCount>, e: &CorrelationEndpoint) -> (r: usize)
    ensures
        r == endpoint_position(count_views(endpoints@), e@),
        r <= endpoints@.len(),
        r < endpoints@.len() ==> endpoints@[r as int].endpoint@ == e@,
{
    let mut i: usize = 0;
    while i < endpoints.len() && !endpoints[i].endpoint.same(e)
        invariant
            i <= endpoints@.len(),
            forall|k: int| 0 <= k < i ==> (#[trigger] endpoints@[k]).endpoint@ != e@,
        decreases endpoints@.len() - i,
    {
        i += 1;
    }
    proof {
        assert forall|k: int| 0 <= k < i implies (#[trigger] count_views(
            endpoints@,
        )[k]).endpoint != e@ by {
            assert(endpoints@[k].endpoint@ != e@);
        }
        lemma_endpoint_position(count_views(endpoints@), e@, i as int);
    }
    i
}

proof fn lemma_without_stale(
    occurrences: Seq<OccurrenceView>,
    reach: u64,
    now_ms: u64,
    k: int,
)
    requires
        0 <= k <= occurrences.len(),
        forall|i: int|
            0 <= i < k ==> arith::capped((#[trigger] occurrences[i]).ingest_ms + reach) < now_ms,
        k < occurrences.len() ==> arith::capped(occurrences[k].ingest_ms + reach) >= now_ms,
    ensures
        without_stale(occurrences, reach, now_ms) == occurrences.skip(k),
    decreases occurrences.len(),
{
    if k > 0 {
        let rest = occurrences.drop_first();
        assert(arith::capped(occurrences[0].ingest_ms + reach) < now_ms);
        assert forall|i: int| 0 <= i < k - 1 implies arith::capped(
            (#[trigger] rest[i]).ingest_ms + reach,
        ) < now_ms by {
            assert(rest[i] == occurrences[i + 1]);
        }
        lemma_without_stale(rest, reach, now_ms, k - 1);
        assert(rest.skip(k - 1) =~= occurrences.skip(k));
    } else {
        assert(occurrences.skip(0) =~= occurrences);
    }
}

fn note_match(
    state: &mut PairState,
    now_ms: u64,
    source_trace_id: &str,
    target_trace_id: &str,
)
    ensures
        final(state)@ == old(state)@.matched(now_ms, source_trace_id@, target_trace_id@),
{
    state.last_seen_ms = now_ms;
    state.update_sample_trace_ids(source_trace_id, target_trace_id);
}

fn note_count(state: &mut PairState, idx: u64, lag_ms: u64)
    ensures
        final(state)@ == old(state)@.counted(idx, lag_ms),
{
    state.co.add_at(idx);
    state.record_lag(lag_ms);
}

impl CrossTraceCorrelator {
    pub fn new(config: CorrelationConfig) -> (r: Self)
        ensures
            r@ == CorrelatorView::empty(),
            r.config == config,
    {
        let r = CrossTraceCorrelator {
            occurrences: Vec::new(),
            pair_counts: Vec::new(),
            endpoints: Vec::new(),
            now_idx: 0,
            pruned_idx: 0,
            config,
        };
        assert(r@.occurrences =~= Seq::empty());
        assert(r@.pairs =~= Seq::empty());
        assert(r@.endpoints =~= Seq::empty());
        r
    }

    /// Drop occurrences past the pairing horizon, in ingest order.
    fn evict_stale(&mut self, now_ms: u64)
        ensures
            final(self)@ == old(self)@.in_horizon(now_ms, old(self).config),
            final(self).config == old(self).config,
    {
        let reach = arith::capped_sum(self.config.lag_threshold_ms, self.config.ingest_skew_ms);
        let ghost all = self@.occurrences;
        let mut k: usize = 0;
        while k < self.occurrences.len() && arith::capped_sum(self.occurrences[k].ingest_ms, reach)
            < now_ms
            invariant
                *self == *old(self),
                all == self@.occurrences,
                k <= all.len(),
                forall|i: int|
                    0 <= i < k ==> arith::capped((#[trigger] all[i]).ingest_ms + reach) < now_ms,
            decreases all.len() - k,
        {
            k += 1;
        }
        proof {
            lemma_without_stale(all, reach, now_ms, k as int);
        }
        let kept = self.occurrences.split_off(k);
        self.occurrences = kept;
        assert(self@.occurrences =~= all.skip(k as int));
    }

    /// Drop pairs that did not match within the window.
    fn evict_expired(&mut self, now_ms: u64)
        ensures
            final(self)@ == old(self)@.in_window(now_ms, old(self).config),
            final(self).config == old(self).config,
    {
        let window_ms = self.config.window_ms;
        let cutoff = now_ms.saturating_sub(window_ms);
        let ghost live = |p: PairView| p.state.last_seen_ms + window_ms >= now_ms;
        let mut pairs: Vec<TrackedPair> = Vec::new();
        pairs.append(&mut self.pair_counts);
        let ghost all = pairs@;
        let mut kept: Vec<TrackedPair> = Vec::new();
        proof {
            reveal(Seq::filter);
            assert(pair_views(all.take(0)) =~= Seq::empty());
            assert(pair_views(kept@) =~= pair_views(all.take(0)).filter(live));
        }
        for p in it: pairs
            invariant
                it.seq() == all,
                cutoff == (if now_ms > window_ms {
                    now_ms - window_ms
                } else {
                    0
                }),
                live == (|p: PairView| p.state.last_seen_ms + window_ms >= now_ms),
                pair_views(kept@) == pair_views(all.take(it.index())).filter(live),
        {
            let ghost i = it.index();
            let ghost before = kept@;
            proof {
                reveal(Seq::filter);
                let next = pair_views(all.take(i + 1));
                assert(next.drop_last() =~= pair_views(all.take(i)));
                assert(next.last() == p@);
            }
            if p.state.last_seen_ms >= cutoff {
                kept.push(p);
                assert(pair_views(kept@) =~= pair_views(before).push(p@));
            }
        }
        self.pair_counts = kept;
        proof {
            assert(all.take(all.len() as int) =~= all);
            assert(all =~= old(self).pair_counts@);
        }
    }

    fn is_pinned(&self, e: &CorrelationEndpoint) -> (r: bool)
        ensures
            r == pinned(self@, e@),
    {
        let mut i: usize = 0;
        while i < self.occurrences.len()
            invariant
                i <= self.occurrences@.len(),
                forall|k: int|
                    0 <= k < i ==> (#[trigger] self@.occurrences[k]).endpoint != e@
                        && !self@.occurrences[k].counted_targets.contains(e@),
            decreases self.occurrences@.len() - i,
        {
            assert(self@.occurrences[i as int] == self.occurrences@[i as int]@);
            if self.occurrences[i].endpoint.same(e) || endpoint::listed(
                &self.occurrences[i].counted_targets,
                e,
            ) {
                return true;
            }
            i += 1;
        }
        let mut j: usize = 0;
        while j < self.pair_counts.len()
            invariant
                forall|k: int|
                    0 <= k < self@.occurrences.len() ==> (
                    #[trigger] self@.occurrences[k]).endpoint != e@
                        && !self@.occurrences[k].counted_targets.contains(e@),
                j <= self.pair_counts@.len(),
                forall|k: int|
                    0 <= k < j ==> (#[trigger] self@.pairs[k]).key.source != e@
                        && self@.pairs[k].key.target != e@,
            decreases self.pair_counts@.len() - j,
        {
            assert(self@.pairs[j as int] == self.pair_counts@[j as int]@);
            if self.pair_counts[j].key.source.same(e) || self.pair_counts[j].key.target.same(e) {
                return true;
            }
            j += 1;
        }
        false
    }

    /// Drop endpoints with no count left in the window and no pair or horizon occurrence pinning
    /// them. Runs once per grid step.
    fn prune_endpoints(&mut self)
        ensures
            final(self)@ == old(self)@.pruned(),
            final(self).config == old(self).config,
    {
        if self.now_idx == self.pruned_idx {
            return;
        }
        let ghost s = self@;
        let ghost keeps = |e: EndpointCountView|
            e.count.in_window(s.now_idx) > 0 || pinned(s, e.endpoint);
        let mut endpoints: Vec<EndpointCount> = Vec::new();
        endpoints.append(&mut self.endpoints);
        let ghost all = endpoints@;
        let mut kept: Vec<EndpointCount> = Vec::new();
        proof {
            reveal(Seq::filter);
            assert(count_views(all.take(0)) =~= Seq::empty());
            assert(count_views(kept@) =~= count_views(all.take(0)).filter(keeps));
        }
        for e in it: endpoints
            invariant
                it.seq() == all,
                self@.occurrences == s.occurrences,
                self@.pairs == s.pairs,
                self.now_idx == s.now_idx,
                self.config == old(self).config,
                keeps == (|e: EndpointCountView|
                    e.count.in_window(s.now_idx) > 0 || pinned(s, e.endpoint)),
                count_views(kept@) == count_views(all.take(it.index())).filter(keeps),
        {
            let ghost i = it.index();
            let ghost before = kept@;
            proof {
                reveal(Seq::filter);
                let next = count_views(all.take(i + 1));
                assert(next.drop_last() =~= count_views(all.take(i)));
                assert(next.last() == e@);
                assert(pinned(self@, e.endpoint@) == pinned(s, e.endpoint@));
            }
            if e.count.total(self.now_idx) > 0 || self.is_pinned(&e.endpoint) {
                kept.push(e);
                assert(count_views(kept@) =~= count_views(before).push(e@));
            }
        }
        self.endpoints = kept;
        self.pruned_idx = self.now_idx;
        proof {
            assert(all.take(all.len() as int) =~= all);
            assert(all =~= old(self).endpoints@);
        }
    }

    /// The endpoint of a finding; one occurrence of it is counted on the grid.
    fn intern(&mut self, finding: &Finding) -> (r: CorrelationEndpoint)
        ensures
            r@ == endpoint::endpoint_of(finding@),
            final(self)@ == old(self)@.interned(endpoint::endpoint_of(finding@)),
            final(self).config == old(self).config,
    {
        let e = CorrelationEndpoint::of(finding);
        let at = position_of_endpoint(&self.endpoints, &e);
        let ghost before = self@.endpoints;
        if at < self.endpoints.len() {
            let mut count = self.endpoints[at].count;
            count.add_at(self.now_idx);
            self.endpoints[at].count = count;
            assert(self@.endpoints =~= before.update(
                at as int,
                EndpointCountView {
                    endpoint: e@,
                    count: before[at as int].count.counted(self.now_idx),
                },
            ));
        } else {
            let mut count = HalfWindowCount::default();
            count.add_at(self.now_idx);
            self.endpoints.push(EndpointCount { endpoint: e.duplicate(), count });
            assert(self@.endpoints =~= before.push(
                EndpointCountView {
                    endpoint: e@,
                    count: HalfWindowCount::zero().counted(self.now_idx),
                },
            ));
        }
        e
    }

    /// The pairing of an incoming finding with the occurrences.
    pub open spec fn pairing(self, incoming: OccurrenceView, refused: RefusedView) -> Pairing {
        Pairing { occurrences: self@.occurrences, incoming, pairs: self@.pairs, refused }
    }

    /// Hold an incoming finding against one occurrence.
    fn hold_against(
        &mut self,
        incoming: &mut FindingOccurrence,
        i: usize,
        now_ms: u64,
        refused: &mut RefusedPairs,
    )
        requires
            i < old(self).occurrences@.len(),
        ensures
            final(self).pairing(final(incoming)@, final(refused)@) == old(self).pairing(
                old(incoming)@,
                old(refused)@,
            ).held_against(i as int, now_ms, old(self).config),
            final(self)@.endpoints == old(self)@.endpoints,
            final(self).now_idx == old(self).now_idx,
            final(self).pruned_idx == old(self).pruned_idx,
            final(self).config == old(self).config,
            final(self).occurrences@.len() == old(self).occurrences@.len(),
    {
        let ghost before = self.pairing(incoming@, refused@);
        let event_ms = self.occurrences[i].event_ms;
        let delta = if event_ms > incoming.event_ms {
            event_ms - incoming.event_ms
        } else {
            incoming.event_ms - event_ms
        };
        assert(before.occurrences[i as int] == self.occurrences@[i as int]@);
        if delta > self.config.lag_threshold_ms || !endpoint::pairable(
            &self.occurrences[i].endpoint,
            &incoming.endpoint,
        ) {
            return;
        }
        let leads = incoming.event_ms < event_ms;
        let key = if leads {
            PairKey {
                source: incoming.endpoint.duplicate(),
                target: self.occurrences[i].endpoint.duplicate(),
            }
        } else {
            PairKey {
                source: self.occurrences[i].endpoint.duplicate(),
                target: incoming.endpoint.duplicate(),
            }
        };
        assert(key@ == before.key(i as int));
        let at = position_of_pair(&self.pair_counts, &key);
        if at == self.pair_counts.len() {
            if self.pair_counts.len() >= self.config.max_tracked_pairs {
                refused.record(key);
                return;
            }
            let state = PairState::new(now_ms, &key.source, &key.target);
            self.pair_counts.push(TrackedPair { key, state });
        }
        let ghost opened = self.pair_counts@;
        let repeat = if leads {
            note_match(
                &mut self.pair_counts[at].state,
                now_ms,
                incoming.trace_id.as_str(),
                self.occurrences[i].trace_id.as_str(),
            );
            endpoint::listed(&incoming.counted_targets, &self.occurrences[i].endpoint)
        } else {
            note_match(
                &mut self.pair_counts[at].state,
                now_ms,
                self.occurrences[i].trace_id.as_str(),
                incoming.trace_id.as_str(),
            );
            endpoint::listed(&self.occurrences[i].counted_targets, &incoming.endpoint)
        };
        assert(repeat == before.is_repeat(i as int));
        if !repeat {
            if leads {
                let target = self.occurrences[i].endpoint.duplicate();
                note_count(&mut self.pair_counts[at].state, incoming.ingest_idx, delta);
                incoming.counted_targets.push(target);
            } else {
                let idx = self.occurrences[i].ingest_idx;
                note_count(&mut self.pair_counts[at].state, idx, delta);
                self.occurrences[i].counted_targets.push(incoming.endpoint.duplicate());
            }
        }
        proof {
            let after = self.pairing(incoming@, refused@);
            let entry = PairView {
                key: before.key(i as int),
                state: before.state_after(i as int, now_ms),
            };
            assert(self.pair_counts@[at as int]@ == entry);
            assert(after.pairs =~= before.pairs_after(i as int, now_ms));
            if leads {
                assert(incoming@.counted_targets =~= before.source_after(
                    i as int,
                ).counted_targets);
                assert(after.occurrences =~= before.occurrences);
            } else {
                assert(self.occurrences@[i as int]@.counted_targets =~= before.source_after(
                    i as int,
                ).counted_targets);
                assert(after.occurrences =~= before.occurrences.update(
                    i as int,
                    before.source_after(i as int),
                ));
            }
        }
    }

    /// Pair `incoming` with every horizon occurrence within `lag_threshold_ms` of event time and
    /// count the matches.
    ///
    /// The earlier event is the source (ties keep arrival order). One source occurrence counts once
    /// per pair, so the count does not depend on arrival order. Pairs refused at the cap go to
    /// `refused` instead of being stored.
    fn record_co_occurrences(
        &mut self,
        incoming: &mut FindingOccurrence,
        now_ms: u64,
        refused: &mut RefusedPairs,
    )
        ensures
            final(self).pairing(final(incoming)@, final(refused)@) == old(self).pairing(
                old(incoming)@,
                old(refused)@,
            ).held_against_first(old(self)@.occurrences.len(), now_ms, old(self).config),
            final(self)@.endpoints == old(self)@.endpoints,
            final(self).now_idx == old(self).now_idx,
            final(self).pruned_idx == old(self).pruned_idx,
            final(self).config == old(self).config,
    {
        let ghost before = self.pairing(incoming@, refused@);
        let ghost n = self.occurrences@.len();
        let mut i: usize = 0;
        while i < self.occurrences.len()
            invariant
                i <= n,
                self.occurrences@.len() == n,
                n == old(self).occurrences@.len(),
                before == old(self).pairing(old(incoming)@, old(refused)@),
                self.pairing(incoming@, refused@) == before.held_against_first(
                    i as nat,
                    now_ms,
                    old(self).config,
                ),
                self@.endpoints == old(self)@.endpoints,
                self.now_idx == old(self).now_idx,
                self.pruned_idx == old(self).pruned_idx,
                self.config == old(self).config,
            decreases n - i,
        {
            self.hold_against(incoming, i, now_ms, refused);
            i += 1;
        }
    }

    fn absorb(&mut self, finding: &Finding, now_ms: u64, refused: &mut RefusedPairs)
        ensures
            (final(self)@, final(refused)@) == absorbed(
                old(self)@,
                old(refused)@,
                finding@,
                now_ms,
                old(self).config,
            ),
            final(self).config == old(self).config,
    {
        let endpoint = self.intern(finding);
        let event_ms = match time::parse_iso8601_utc_to_ms(finding.first_timestamp.as_str()) {
            Some(ms) => ms,
            None => now_ms,
        };
        let mut incoming = FindingOccurrence {
            endpoint,
            event_ms,
            ingest_ms: now_ms,
            ingest_idx: self.now_idx,
            trace_id: text::truncate_to_utf8_boundary(
                finding.trace_id.as_str(),
                MAX_SAMPLE_TRACE_ID_BYTES,
            ).to_string(),
            counted_targets: Vec::new(),
        };
        assert(incoming@.counted_targets =~= Seq::empty());
        assert(incoming@ == occurrence_of(finding@, now_ms, self.now_idx));
        self.record_co_occurrences(&mut incoming, now_ms, refused);
        let ghost met = self@.occurrences;
        let ghost last = incoming@;
        self.occurrences.push(incoming);
        assert(self@.occurrences =~= met.push(last));
    }

    /// Ingest a batch of findings.
    ///
    /// Evicts stale state, then pairs each new finding with every horizon occurrence whose
    /// first-span timestamp lies within `lag_threshold_ms` of its own. Returns the number of pairs
    /// lost to the `max_tracked_pairs` cap in this batch: refusals, and incumbents evicted at batch
    /// end. One pair matched by several occurrences counts once while the refused set is under its
    /// ceiling, and a pair refused again on a later batch counts again.
    pub fn ingest(&mut self, findings: &[Finding], now_ms: u64) -> (r: usize)
        ensures
            (final(self)@, r) == ingested(
                old(self)@,
                finding::finding_views(findings@),
                now_ms,
                old(self).config,
            ),
            final(self).config == old(self).config,
    {
        let half = self.config.window_ms / 2;
        let half_window_ms = if half > 1 {
            half
        } else {
            1
        };
        let idx = now_ms / half_window_ms;
        if idx > self.now_idx {
            self.now_idx = idx;
        }
        assert(self@ == old(self)@.advanced(now_ms, self.config));
        self.evict_stale(now_ms);
        self.evict_expired(now_ms);
        self.prune_endpoints();
        let ghost swept = self@;
        let ghost config = self.config;
        let ghost views = finding::finding_views(findings@);
        let mut refused = RefusedPairs::default();
        let mut i: usize = 0;
        assert(views.take(0) =~= Seq::empty());
        while i < findings.len()
            invariant
                i <= findings@.len(),
                views == finding::finding_views(findings@),
                self.config == config,
                (self@, refused@) == absorbed_all(swept, views.take(i as int), now_ms, config),
            decreases findings@.len() - i,
        {
            proof {
                assert(views.take(i + 1).drop_last() =~= views.take(i as int));
                assert(views.take(i + 1).last() == findings@[i as int]@);
            }
            self.absorb(&findings[i], now_ms, &mut refused);
            i += 1;
        }
        assert(views.take(i as int) =~= views);
        let not_admitted = refused.total();
        if not_admitted > 0 {
            let evicted = self.enforce_pair_cap();
            arith::capped_count_sum(evicted, not_admitted)
        } else {
            0
        }
    }

    /// Evict pairs down to 90% of `max_tracked_pairs`, lowest windowed co-occurrence count first,
    /// and then stalest, and return how many were removed. Called when a batch hit admission
    /// refusals at the cap.
    pub fn enforce_pair_cap(&mut self) -> (r: usize)
        ensures
            r == to_evict(old(self)@.pairs.len(), old(self).config),
            final(self)@ == (CorrelatorView {
                pairs: after_eviction(old(self)@.pairs, old(self).now_idx, r as nat),
                ..old(self)@
            }),
            final(self)@.pairs.len() == old(self)@.pairs.len() - r,
            final(self).config == old(self).config,
    {
        let n_pairs = self.pair_counts.len();
        if n_pairs == 0 || n_pairs < self.config.max_tracked_pairs {
            return 0;
        }
        let cap = self.config.max_tracked_pairs;
        let target = cap - cap / 10;
        let to_remove = if n_pairs - target > 1 {
            n_pairs - target
        } else {
            1
        };
        let now_idx = self.now_idx;
        let ghost pairs = self@.pairs;
        let mut unsorted: Vec<PairRank> = Vec::new();
        let mut i: usize = 0;
        while i < self.pair_counts.len()
            invariant
                *self == *old(self),
                pairs == self@.pairs,
                now_idx == self.now_idx,
                i <= pairs.len(),
                unsorted@ == ranks(pairs, now_idx).take(i as int),
            decreases pairs.len() - i,
        {
            let state = &self.pair_counts[i].state;
            unsorted.push(
                PairRank {
                    co_occurrences: state.co.total(now_idx),
                    last_seen_ms: state.last_seen_ms,
                },
            );
            assert(ranks(pairs, now_idx).take(i + 1) =~= ranks(pairs, now_idx).take(i as int).push(
                rank_of(pairs[i as int], now_idx),
            ));
            i += 1;
        }
        assert(ranks(pairs, now_idx).take(i as int) =~= ranks(pairs, now_idx));
        proof {
            order::lemma_ranked(unsorted@);
        }
        let ghost all_ranks = unsorted@;
        let sorted = order::sort_ranked(unsorted);
        let threshold = sorted[to_remove - 1];
        proof {
            lemma_eviction_size(pairs, now_idx, to_remove as nat);
        }
        let mut lower: usize = 0;
        let mut j: usize = 0;
        while j < sorted.len()
            invariant
                j <= sorted@.len(),
                lower <= j,
                lower == permutation::count_if(sorted@.take(j as int), below(threshold)),
            decreases sorted@.len() - j,
        {
            assert(sorted@.take(j + 1).drop_last() =~= sorted@.take(j as int));
            if sorted[j].is_lower(&threshold) {
                lower += 1;
            }
            j += 1;
        }
        proof {
            assert(sorted@.take(j as int) =~= sorted@);
            permutation::lemma_count_permutation(sorted@, all_ranks, below(threshold));
        }
        let extra = to_remove - lower;
        let mut all: Vec<TrackedPair> = Vec::new();
        all.append(&mut self.pair_counts);
        let ghost whole = all@;
        let mut kept: Vec<TrackedPair> = Vec::new();
        let mut ties: usize = 0;
        assert(whole =~= old(self).pair_counts@);
        assert(pair_views(kept@) =~= survivors(pairs.take(0), now_idx, threshold, extra as nat));
        for p in it: all
            invariant
                it.seq() == whole,
                pair_views(whole) == pairs,
                whole.len() <= usize::MAX,
                pair_views(kept@) == survivors(
                    pairs.take(it.index()),
                    now_idx,
                    threshold,
                    extra as nat,
                ),
                ties <= it.index(),
                ties == permutation::count_if(ranks(pairs.take(it.index()), now_idx), tied(threshold)),
        {
            let ghost i = it.index();
            let ghost before = kept@;
            let rank = PairRank {
                co_occurrences: p.state.co.total(now_idx),
                last_seen_ms: p.state.last_seen_ms,
            };
            proof {
                let next = pairs.take(i + 1);
                assert(next.drop_last() =~= pairs.take(i));
                assert(next.last() == pair_views(whole)[i]);
                assert(next.last() == p@);
                assert(ranks(next, now_idx).drop_last() =~= ranks(pairs.take(i), now_idx));
                assert(ranks(next, now_idx).last() == rank);
            }
            let tie = rank == threshold;
            let spared = !rank.is_lower(&threshold) && !(tie && ties < extra);
            proof {
                let next = ranks(pairs.take(i + 1), now_idx);
                assert(permutation::count_if(next, tied(threshold)) == permutation::count_if(
                    next.drop_last(),
                    tied(threshold),
                ) + (if tied(threshold)(next.last()) {
                    1nat
                } else {
                    0nat
                }));
            }
            if tie {
                ties += 1;
            }
            if spared {
                kept.push(p);
                assert(pair_views(kept@) =~= pair_views(before).push(p@));
            }
        }
        self.pair_counts = kept;
        assert(pairs.take(whole.len() as int) =~= pairs);
        to_remove
    }

    /// All active correlations above the configured thresholds.
    pub fn active_correlations(&self) -> (r: Vec<CrossTraceCorrelation>)
        ensures
            correlation_views(r@) == correlations(self@, self.config),
    {
        let ghost f = |p: PairView| correlation_of(self@, p, self.config);
        let mut out: Vec<CrossTraceCorrelation> = Vec::new();
        let mut i: usize = 0;
        assert(correlation_views(out@) =~= self@.pairs.take(0).filter_map(f));
        while i < self.pair_counts.len()
            invariant
                f == (|p: PairView| correlation_of(self@, p, self.config)),
                i <= self@.pairs.len(),
                correlation_views(out@) == self@.pairs.take(i as int).filter_map(f),
            decreases self@.pairs.len() - i,
        {
            let ghost before = out@;
            proof {
                let next = self@.pairs.take(i + 1);
                assert(next.drop_last() =~= self@.pairs.take(i as int));
                assert(next.last() == self.pair_counts@[i as int]@);
            }
            if let Some(c) = self.correlation(&self.pair_counts[i]) {
                out.push(c);
                assert(correlation_views(out@) =~= correlation_views(before).push(c@));
            }
            assert(correlation_views(out@) =~= self@.pairs.take(i + 1).filter_map(f));
            i += 1;
        }
        assert(self@.pairs.take(i as int) =~= self@.pairs);
        out
    }

    fn correlation(&self, pair: &TrackedPair) -> (r: Option<CrossTraceCorrelation>)
        ensures
            match r {
                Some(c) => correlation_of(self@, pair@, self.config) == Some(c@),
                None => correlation_of(self@, pair@, self.config) is None,
            },
    {
        let co = pair.state.co.total(self.now_idx);
        if co < self.config.min_co_occurrences {
            return None;
        }
        let at = position_of_endpoint(&self.endpoints, &pair.key.source);
        if at == self.endpoints.len() {
            return None;
        }
        assert(self@.endpoints[at as int] == self.endpoints@[at as int]@);
        let total = self.endpoints[at].count.total(self.now_idx);
        if total == 0 {
            return None;
        }
        let confidence = Ratio {
            numerator: if co > total {
                total as u64
            } else {
                co as u64
            },
            denominator: total as u64,
        };
        if !reaches(confidence, self.config.min_confidence) {
            return None;
        }
        Some(
            CrossTraceCorrelation {
                source: pair.key.source.duplicate(),
                target: pair.key.target.duplicate(),
                co_occurrence_count: co,
                source_total_occurrences: total,
                confidence,
                twice_median_lag_ms: pair::median(&pair.state.lags_ms),
                first_seen: time::millis_to_iso8601(pair.state.first_seen_ms),
                last_seen: time::millis_to_iso8601(pair.state.last_seen_ms),
                sample_trace_id: event::copy_opt(&pair.state.last_trace_id),
                source_sample_trace_id: event::copy_opt(&pair.state.last_source_trace_id),
            },
        )
    }
}

fn reaches(a: Ratio, b: Ratio) -> (r: bool)
    ensures
        r == at_least(a, b),
{
    wide_product(a.numerator, b.denominator) >= wide_product(b.numerator, a.denominator)
}

fn wide_product(a: u64, b: u64) -> (r: u128)
    ensures
        r == a * b,
{
    assert(0 <= a * b <= 0xffff_ffff_ffff_ffff * 0xffff_ffff_ffff_ffff) by (nonlinear_arith)
        requires
            a <= 0xffff_ffff_ffff_ffff,
            b <= 0xffff_ffff_ffff_ffff,
    ;
    a as u128 * b as u128
}

proof fn lemma_lower_or_tied(s: Seq<PairRank>, threshold: PairRank)
    ensures
        permutation::count_if(s, |r: PairRank| !threshold.lower(r)) == permutation::count_if(
            s,
            below(threshold),
        ) + permutation::count_if(s, tied(threshold)),
    decreases s.len(),
{
    if s.len() > 0 {
        lemma_lower_or_tied(s.drop_last(), threshold);
    }
}

proof fn lemma_survivors(pairs: Seq<PairView>, now_idx: u64, threshold: PairRank, extra: nat)
    ensures
        ({
            let lower = permutation::count_if(ranks(pairs, now_idx), below(threshold));
            let ties = permutation::count_if(ranks(pairs, now_idx), tied(threshold));
            survivors(pairs, now_idx, threshold, extra).len() + lower + (if ties < extra {
                ties
            } else {
                extra
            }) == pairs.len()
        }),
    decreases pairs.len(),
{
    if pairs.len() > 0 {
        let all = ranks(pairs, now_idx);
        let rest = ranks(pairs.drop_last(), now_idx);
        lemma_survivors(pairs.drop_last(), now_idx, threshold, extra);
        assert(all.drop_last() =~= rest);
        assert(all.last() == rank_of(pairs.last(), now_idx));
        assert(permutation::count_if(all, below(threshold)) == permutation::count_if(
            rest,
            below(threshold),
        ) + (if all.last().lower(threshold) {
            1nat
        } else {
            0nat
        }));
        assert(permutation::count_if(all, tied(threshold)) == permutation::count_if(
            rest,
            tied(threshold),
        ) + (if all.last() == threshold {
            1nat
        } else {
            0nat
        }));
    }
}

pub(crate) proof fn lemma_eviction_size(pairs: Seq<PairView>, now_idx: u64, n: nat)
    requires
        0 < n <= pairs.len(),
    ensures
        after_eviction(pairs, now_idx, n).len() == pairs.len() - n,
        permutation::count_if(
            ranks(pairs, now_idx),
            below(order::ranked(ranks(pairs, now_idx))[n - 1]),
        ) < n,
        permutation::count_if(
            ranks(pairs, now_idx),
            below(order::ranked(ranks(pairs, now_idx))[n - 1]),
        ) + permutation::count_if(
            ranks(pairs, now_idx),
            tied(order::ranked(ranks(pairs, now_idx))[n - 1]),
        ) >= n,
{
    let all = ranks(pairs, now_idx);
    let sorted = order::ranked(all);
    order::lemma_ranked(all);
    let threshold = sorted[n - 1];
    let is_low = |r: PairRank| !threshold.lower(r);
    let head = sorted.take(n as int);
    let front = sorted.take(n - 1);
    let back = sorted.skip(n - 1);
    assert(sorted =~= front + back);
    permutation::lemma_count_add(front, back, below(threshold));
    permutation::lemma_count_bound(front, below(threshold));
    assert forall|i: int| 0 <= i < back.len() implies !below(threshold)(#[trigger] back[i]) by {
        assert(back[i] == sorted[n - 1 + i]);
        if i > 0 {
            assert(sorted[n - 1].rank_le(&sorted[n - 1 + i]));
        }
    }
    permutation::lemma_count_none(back, below(threshold));
    let tail = sorted.skip(n as int);
    assert(sorted =~= head + tail);
    permutation::lemma_count_add(head, tail, is_low);
    assert forall|i: int| 0 <= i < head.len() implies is_low(#[trigger] head[i]) by {
        assert(head[i] == sorted[i]);
        if i < n - 1 {
            assert(sorted[i].rank_le(&sorted[n - 1]));
        }
    }
    permutation::lemma_count_all(head, is_low);
    lemma_lower_or_tied(sorted, threshold);
    permutation::lemma_count_permutation(sorted, all, below(threshold));
    permutation::lemma_count_permutation(sorted, all, tied(threshold));
    let lower = permutation::count_if(all, below(threshold));
    lemma_survivors(pairs, now_idx, threshold, (n - lower) as nat);
}

} // verus!

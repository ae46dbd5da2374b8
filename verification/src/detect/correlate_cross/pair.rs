//! What is kept of a pair of endpoints that occurred together.

use crate::arith;
use crate::detect::correlate_cross::endpoint::{CorrelationEndpoint, EndpointView};
use crate::detect::correlate_cross::grid::HalfWindowCount;
use crate::event;
use crate::order;
use crate::permutation;
use crate::text;
use vstd::prelude::*;

verus! {

/// Maximum number of lag samples kept per tracked pair.
pub const MAX_LAG_SAMPLES: usize = 64;

/// Cap on stored trace ids, in bytes.
pub const MAX_SAMPLE_TRACE_ID_BYTES: usize = 128;

/// Start value of the FNV-1a hash.
pub const FNV_OFFSET: u64 = 0xcbf2_9ce4_8422_2325;

/// Multiplier of the FNV-1a hash.
pub const FNV_PRIME: u64 = 0x100_0000_01b3;

/// Increment of the `SplitMix64` state.
pub const SPLITMIX_STEP: u64 = 0x9E37_79B9_7F4A_7C15;

/// First multiplier of `SplitMix64`.
pub const SPLITMIX_FIRST: u64 = 0xBF58_476D_1CE4_E5B9;

/// Second multiplier of `SplitMix64`.
pub const SPLITMIX_SECOND: u64 = 0x94D0_49BB_1331_11EB;

/// A pair of endpoints, the leading one first.
#[derive(Debug, Clone, PartialEq, Eq)]
pub struct PairKey {
    pub source: CorrelationEndpoint,
    pub target: CorrelationEndpoint,
}

/// The mathematical value of a [`PairKey`].
pub struct PairKeyView {
    pub source: EndpointView,
    pub target: EndpointView,
}

impl View for PairKey {
    type V = PairKeyView;

    open spec fn view(&self) -> PairKeyView {
        PairKeyView { source: self.source@, target: self.target@ }
    }
}

impl PairKey {
    /// Whether two pairs are the same.
    pub(crate) fn same(&self, other: &PairKey) -> (r: bool)
        ensures
            r == (self@ == other@),
    {
        self.source.same(&other.source) && self.target.same(&other.target)
    }
}

/// The FNV-1a hash of bytes, continued from `h`.
pub open spec fn fnv1a(h: u64, bytes: Seq<u8>) -> u64
    decreases bytes.len(),
{
    if bytes.len() == 0 {
        h
    } else {
        (fnv1a(h, bytes.drop_last()) ^ (bytes.last() as u64)).wrapping_mul(FNV_PRIME)
    }
}

/// The hash of an endpoint: type, service and template, with a separator before each of the last
/// two.
pub open spec fn endpoint_hash(e: EndpointView) -> u64 {
    let typed = fnv1a(FNV_OFFSET, vstd::utf8::encode_utf8(e.finding_type.name()));
    let served = fnv1a(typed ^ 0xFF, vstd::utf8::encode_utf8(e.service));
    fnv1a(served ^ 0xFE, vstd::utf8::encode_utf8(e.template))
}

fn hash_text(h: u64, s: &str) -> (r: u64)
    ensures
        r == fnv1a(h, vstd::utf8::encode_utf8(s@)),
{
    let bytes = s.as_bytes();
    let mut acc = h;
    let mut i: usize = 0;
    while i < bytes.len()
        invariant
            i <= bytes@.len(),
            acc == fnv1a(h, bytes@.take(i as int)),
        decreases bytes@.len() - i,
    {
        assert(bytes@.take(i + 1).drop_last() =~= bytes@.take(i as int));
        acc = (acc ^ (bytes[i] as u64)).wrapping_mul(FNV_PRIME);
        i += 1;
    }
    assert(bytes@.take(i as int) =~= bytes@);
    acc
}

/// Cheap 64-bit hash of an endpoint, to diversify the seeds of the sample streams. It is the same
/// in every run, so that a replay gives the same samples.
fn hash_endpoint(ep: &CorrelationEndpoint) -> (r: u64)
    ensures
        r == endpoint_hash(ep@),
{
    let typed = hash_text(FNV_OFFSET, ep.finding_type.as_str());
    let served = hash_text(typed ^ 0xFF, ep.service.as_str());
    hash_text(served ^ 0xFE, ep.template.as_str())
}

/// What `SplitMix64` draws in a state.
pub open spec fn splitmix_output(state: u64) -> u64 {
    let a = (state ^ (state >> 30)).wrapping_mul(SPLITMIX_FIRST);
    let b = (a ^ (a >> 27)).wrapping_mul(SPLITMIX_SECOND);
    b ^ (b >> 31)
}

/// `SplitMix64` generator: advances the state in place and returns a fresh value.
fn splitmix64(state: &mut u64) -> (r: u64)
    ensures
        *final(state) == old(state).wrapping_add(SPLITMIX_STEP),
        r == splitmix_output(*final(state)),
{
    let next = state.wrapping_add(SPLITMIX_STEP);
    *state = next;
    let a = (next ^ (next >> 30)).wrapping_mul(SPLITMIX_FIRST);
    let b = (a ^ (a >> 27)).wrapping_mul(SPLITMIX_SECOND);
    b ^ (b >> 31)
}

/// State of a correlation pair.
#[derive(Debug, Clone)]
pub struct PairState {
    /// Co-occurrences on the half-window grid.
    pub co: HalfWindowCount,
    /// Bounded reservoir of lag samples, in milliseconds of event time.
    pub lags_ms: Vec<u64>,
    /// Total number of lags observed, independent of the reservoir's size.
    pub total_observations: u64,
    /// State of the generator that drives reservoir sampling.
    pub rng_state: u64,
    /// Ingest time of the pair's creation.
    pub first_seen_ms: u64,
    /// Ingest time of the latest match.
    pub last_seen_ms: u64,
    /// Trace id of the most recent target-side finding that completed this pair.
    pub last_trace_id: Option<String>,
    /// Trace id of the source-side finding of the same match.
    pub last_source_trace_id: Option<String>,
}

/// The mathematical value of a [`PairState`].
pub struct PairStateView {
    pub co: HalfWindowCount,
    pub lags_ms: Seq<u64>,
    pub total_observations: u64,
    pub rng_state: u64,
    pub first_seen_ms: u64,
    pub last_seen_ms: u64,
    pub last_trace_id: Option<Seq<char>>,
    pub last_source_trace_id: Option<Seq<char>>,
}

impl View for PairState {
    type V = PairStateView;

    open spec fn view(&self) -> PairStateView {
        PairStateView {
            co: self.co,
            lags_ms: self.lags_ms@,
            total_observations: self.total_observations,
            rng_state: self.rng_state,
            first_seen_ms: self.first_seen_ms,
            last_seen_ms: self.last_seen_ms,
            last_trace_id: event::opt_view(self.last_trace_id),
            last_source_trace_id: event::opt_view(self.last_source_trace_id),
        }
    }
}

/// The sample trace id after another one was seen: an empty one, or the one stored, changes
/// nothing, and a long one is cut.
pub open spec fn sample_after(slot: Option<Seq<char>>, trace_id: Seq<char>) -> Option<Seq<char>> {
    if trace_id.len() == 0 || slot == Some(trace_id) {
        slot
    } else {
        Some(text::utf8_prefix(trace_id, MAX_SAMPLE_TRACE_ID_BYTES as nat))
    }
}

impl PairStateView {
    /// A pair that was just created.
    pub open spec fn fresh(now_ms: u64, key: PairKeyView) -> PairStateView {
        PairStateView {
            co: HalfWindowCount::zero(),
            lags_ms: Seq::empty(),
            total_observations: 0,
            rng_state: now_ms ^ (endpoint_hash(key.source) << 17) ^ endpoint_hash(key.target),
            first_seen_ms: now_ms,
            last_seen_ms: now_ms,
            last_trace_id: None,
            last_source_trace_id: None,
        }
    }

    /// The pair after a match at `now_ms` between the given traces.
    pub open spec fn matched(
        self,
        now_ms: u64,
        source_trace_id: Seq<char>,
        target_trace_id: Seq<char>,
    ) -> PairStateView {
        PairStateView {
            last_seen_ms: now_ms,
            last_source_trace_id: sample_after(self.last_source_trace_id, source_trace_id),
            last_trace_id: sample_after(self.last_trace_id, target_trace_id),
            ..self
        }
    }

    /// The pair after one more lag. The reservoir is filled first; afterwards the `n`-th lag takes
    /// the place of a kept one where a draw from `0..n` names one.
    pub open spec fn with_lag(self, lag_ms: u64) -> PairStateView {
        let n = arith::capped(self.total_observations + 1);
        if self.lags_ms.len() < MAX_LAG_SAMPLES {
            PairStateView {
                total_observations: n,
                lags_ms: self.lags_ms.push(lag_ms),
                ..self
            }
        } else {
            let rng_state = self.rng_state.wrapping_add(SPLITMIX_STEP);
            let drawn = splitmix_output(rng_state) % n;
            PairStateView {
                total_observations: n,
                rng_state,
                lags_ms: if drawn < MAX_LAG_SAMPLES {
                    self.lags_ms.update(drawn as int, lag_ms)
                } else {
                    self.lags_ms
                },
                ..self
            }
        }
    }

    /// The pair after one more co-occurrence in bucket `idx`.
    pub open spec fn counted(self, idx: u64, lag_ms: u64) -> PairStateView {
        PairStateView { co: self.co.counted(idx), ..self }.with_lag(lag_ms)
    }
}

/// Store `trace_id` in `slot` unless it is empty or already stored. Long ids are truncated on a
/// character boundary.
fn update_sample_trace_id(slot: &mut Option<String>, trace_id: &str)
    ensures
        event::opt_view(*final(slot)) == sample_after(event::opt_view(*old(slot)), trace_id@),
{
    if trace_id.is_empty() {
        return;
    }
    if let Some(stored) = slot {
        if text::same_text(stored.as_str(), trace_id) {
            return;
        }
    }
    let capped = text::truncate_to_utf8_boundary(trace_id, MAX_SAMPLE_TRACE_ID_BYTES);
    *slot = Some(capped.to_string());
}

impl PairState {
    /// A pair that was just created. The endpoints are mixed into the seed, so that pairs created
    /// at the same time have independent sample streams.
    pub fn new(now_ms: u64, source: &CorrelationEndpoint, target: &CorrelationEndpoint) -> (r: Self)
        ensures
            r@ == PairStateView::fresh(
                now_ms,
                (PairKeyView { source: source@, target: target@ }),
            ),
    {
        let r = PairState {
            co: HalfWindowCount::default(),
            lags_ms: Vec::new(),
            total_observations: 0,
            rng_state: now_ms ^ (hash_endpoint(source) << 17) ^ hash_endpoint(target),
            first_seen_ms: now_ms,
            last_seen_ms: now_ms,
            last_trace_id: None,
            last_source_trace_id: None,
        };
        assert(r.lags_ms@ =~= Seq::empty());
        r
    }

    /// Append a lag sample by reservoir sampling (Algorithm R): append while the reservoir has
    /// space, afterwards replace slot `r` when a draw `r` from `0..n` lands below its size.
    pub fn record_lag(&mut self, lag_ms: u64)
        ensures
            final(self)@ == old(self)@.with_lag(lag_ms),
    {
        self.total_observations = arith::capped_sum(self.total_observations, 1);
        if self.lags_ms.len() < MAX_LAG_SAMPLES {
            self.lags_ms.push(lag_ms);
            return;
        }
        let drawn = splitmix64(&mut self.rng_state) % self.total_observations;
        if drawn < MAX_LAG_SAMPLES as u64 {
            self.lags_ms.set(drawn as usize, lag_ms);
        }
    }

    /// Record the source and target trace ids of the latest match.
    pub fn update_sample_trace_ids(&mut self, source_trace_id: &str, target_trace_id: &str)
        ensures
            final(self)@ == old(self)@.matched(
                old(self).last_seen_ms,
                source_trace_id@,
                target_trace_id@,
            ),
    {
        update_sample_trace_id(&mut self.last_source_trace_id, source_trace_id);
        update_sample_trace_id(&mut self.last_trace_id, target_trace_id);
    }
}

/// Twice the median of values: of an even number of them, the sum of the two in the middle.
pub open spec fn twice_median(values: Seq<u64>) -> nat {
    let sorted = order::ranked(values);
    let mid = (sorted.len() / 2) as int;
    if values.len() == 0 {
        0
    } else if sorted.len() % 2 == 0 {
        (sorted[mid - 1] + sorted[mid]) as nat
    } else {
        (2 * sorted[mid]) as nat
    }
}

/// Twice the median of lag values; zero where there are none.
pub fn median(values: &Vec<u64>) -> (r: u128)
    ensures
        r == twice_median(values@),
{
    if values.len() == 0 {
        return 0;
    }
    let mut copy: Vec<u64> = Vec::new();
    let mut i: usize = 0;
    while i < values.len()
        invariant
            i <= values@.len(),
            copy@ == values@.take(i as int),
        decreases values@.len() - i,
    {
        copy.push(values[i]);
        assert(values@.take(i + 1) =~= values@.take(i as int).push(values@[i as int]));
        i += 1;
    }
    assert(values@.take(i as int) =~= values@);
    proof {
        order::lemma_ranked(values@);
    }
    let sorted = order::sort_ranked(copy);
    let mid = sorted.len() / 2;
    if sorted.len() % 2 == 0 {
        sorted[mid - 1] as u128 + sorted[mid] as u128
    } else {
        2 * sorted[mid] as u128
    }
}

/// The reservoir never outgrows its size, and is full once that many lags were observed.
pub proof fn law_reservoir_is_bounded(state: PairStateView, lag_ms: u64)
    requires
        state.lags_ms.len() <= MAX_LAG_SAMPLES,
        state.lags_ms.len() == MAX_LAG_SAMPLES || state.lags_ms.len() == state.total_observations,
    ensures
        state.with_lag(lag_ms).lags_ms.len() <= MAX_LAG_SAMPLES,
        state.with_lag(lag_ms).lags_ms.len() == MAX_LAG_SAMPLES || state.with_lag(
            lag_ms,
        ).lags_ms.len() == state.with_lag(lag_ms).total_observations,
        state.total_observations < u64::MAX ==> state.with_lag(lag_ms).total_observations
            == state.total_observations + 1,
{
}

/// A stored sample trace id fits its cap.
pub proof fn law_sample_trace_id_fits(slot: Option<Seq<char>>, trace_id: Seq<char>)
    requires
        slot is Some ==> vstd::utf8::encode_utf8(slot->0).len() <= MAX_SAMPLE_TRACE_ID_BYTES,
    ensures
        sample_after(slot, trace_id) is Some ==> vstd::utf8::encode_utf8(
            sample_after(slot, trace_id)->0,
        ).len() <= MAX_SAMPLE_TRACE_ID_BYTES,
        trace_id.len() > 0 ==> sample_after(slot, trace_id) is Some,
{
    text::law_cut_text_fits(trace_id, MAX_SAMPLE_TRACE_ID_BYTES as nat);
}

proof fn lemma_sorted_counts(s: Seq<u64>, at: int)
    requires
        0 <= at < s.len(),
        order::is_ranked(s),
    ensures
        permutation::count_if(s, |v: u64| v < s[at]) <= at,
        permutation::count_if(s, |v: u64| v <= s[at]) >= at + 1,
{
    let below = |v: u64| v < s[at];
    let upto = |v: u64| v <= s[at];
    let (front, back) = (s.take(at), s.skip(at));
    assert(s =~= front + back);
    permutation::lemma_count_add(front, back, below);
    permutation::lemma_count_bound(front, below);
    assert forall|i: int| 0 <= i < back.len() implies !below(#[trigger] back[i]) by {
        assert(back[i] == s[at + i]);
        if i > 0 {
            assert(order::Ranked::rank_le(&s[at], &s[at + i]));
        }
    }
    permutation::lemma_count_none(back, below);
    let (head, tail) = (s.take(at + 1), s.skip(at + 1));
    assert(s =~= head + tail);
    permutation::lemma_count_add(head, tail, upto);
    assert forall|i: int| 0 <= i < head.len() implies upto(#[trigger] head[i]) by {
        assert(head[i] == s[i]);
        if i < at {
            assert(order::Ranked::rank_le(&s[i], &s[at]));
        }
    }
    permutation::lemma_count_all(head, upto);
}

/// The median lies between the two values in the middle, which are one value where there is an odd
/// number of them: at most half of the values are below the upper one, and more than half are not
/// above it; so for the lower one, without the one in the middle.
pub proof fn law_median_has_half_on_each_side(values: Seq<u64>) -> (r: (u64, u64))
    requires
        values.len() > 0,
    ensures
        twice_median(values) == r.0 + r.1,
        values.contains(r.0),
        values.contains(r.1),
        values.filter(|v: u64| v < r.0).len() <= (values.len() - 1) / 2,
        values.filter(|v: u64| v <= r.0).len() >= (values.len() - 1) / 2 + 1,
        values.filter(|v: u64| v < r.1).len() <= values.len() / 2,
        values.filter(|v: u64| v <= r.1).len() >= values.len() / 2 + 1,
{
    let sorted = order::ranked(values);
    order::lemma_ranked(values);
    let n = values.len() as int;
    let (i, j) = ((n - 1) / 2, n / 2);
    let (a, b) = (sorted[i], sorted[j]);
    lemma_sorted_counts(sorted, i);
    lemma_sorted_counts(sorted, j);
    let tests = (
        |v: u64| v < a,
        |v: u64| v <= a,
        |v: u64| v < b,
        |v: u64| v <= b,
    );
    permutation::lemma_count_permutation(sorted, values, tests.0);
    permutation::lemma_count_permutation(sorted, values, tests.1);
    permutation::lemma_count_permutation(sorted, values, tests.2);
    permutation::lemma_count_permutation(sorted, values, tests.3);
    permutation::lemma_count_same(sorted, |v: u64| v < sorted[i], tests.0);
    permutation::lemma_count_same(sorted, |v: u64| v <= sorted[i], tests.1);
    permutation::lemma_count_same(sorted, |v: u64| v < sorted[j], tests.2);
    permutation::lemma_count_same(sorted, |v: u64| v <= sorted[j], tests.3);
    permutation::lemma_count_filter(values, tests.0);
    permutation::lemma_count_filter(values, tests.1);
    permutation::lemma_count_filter(values, tests.2);
    permutation::lemma_count_filter(values, tests.3);
    assert(sorted.contains(a) && sorted.contains(b));
    permutation::lemma_contains_permutation(sorted, values, a);
    permutation::lemma_contains_permutation(sorted, values, b);
    (a, b)
}

/// Another lag is kept while there is room for it, behind the others. Afterwards it takes the place
/// of one or of none, and the rest of the pair stays as it is.
pub proof fn law_lags_are_kept_or_replaced_one_by_one(state: PairStateView, lag_ms: u64) -> (at: int)
    requires
        state.lags_ms.len() <= 64,
    ensures
        ({
            let after = state.with_lag(lag_ms);
            &&& state.lags_ms.len() < 64 ==> after.lags_ms == state.lags_ms.push(lag_ms)
            &&& state.lags_ms.len() == 64 ==> after.lags_ms == state.lags_ms || (0 <= at < 64
                && after.lags_ms == state.lags_ms.update(at, lag_ms))
            &&& after.co == state.co
            &&& after.first_seen_ms == state.first_seen_ms
            &&& after.last_seen_ms == state.last_seen_ms
            &&& after.last_trace_id == state.last_trace_id
            &&& after.last_source_trace_id == state.last_source_trace_id
        }),
{
    let n = arith::capped(state.total_observations + 1);
    let rng_state = state.rng_state.wrapping_add(SPLITMIX_STEP);
    let drawn = splitmix_output(rng_state) % n;
    drawn as int
}

/// The sample is the latest trace id that is not empty, as far as it fits into 128 bytes.
pub proof fn law_sample_is_the_latest_trace(slot: Option<Seq<char>>, trace_id: Seq<char>)
    ensures
        trace_id.len() == 0 ==> sample_after(slot, trace_id) == slot,
        trace_id.len() > 0 && vstd::utf8::encode_utf8(trace_id).len() <= 128 ==> sample_after(
            slot,
            trace_id,
        ) == Some(trace_id),
        trace_id.len() > 0 && slot != Some(trace_id) ==> sample_after(slot, trace_id) == Some(
            text::utf8_prefix(trace_id, 128),
        ),
{
    text::law_cut_text_is_the_longest(trace_id, 128);
}

/// The hash of a text folds its bytes: each is mixed in by exclusive or, and the result multiplied.
/// An endpoint is hashed by its type, its service and its template, with a byte that no text holds
/// between them.
pub proof fn law_hash_folds_the_bytes(h: u64, bytes: Seq<u8>, e: EndpointView)
    ensures
        fnv1a(h, bytes) == bytes.fold_left(
            h,
            |acc: u64, b: u8| (acc ^ (b as u64)).wrapping_mul(0x100_0000_01b3),
        ),
        endpoint_hash(e) == fnv1a(
            fnv1a(
                fnv1a(
                    0xcbf2_9ce4_8422_2325,
                    vstd::utf8::encode_utf8(e.finding_type.name()),
                ) ^ 0xFF,
                vstd::utf8::encode_utf8(e.service),
            ) ^ 0xFE,
            vstd::utf8::encode_utf8(e.template),
        ),
    decreases bytes.len(),
{
    if bytes.len() > 0 {
        law_hash_folds_the_bytes(h, bytes.drop_last(), e);
    }
}

/// Pairs that are created at one instant have different seeds where the hashes of their targets
/// differ and their source is the same; and so do pairs of the same endpoints that are created at
/// different instants.
pub proof fn law_seeds_tell_pairs_apart(key: PairKeyView, other: PairKeyView, s: u64, t: u64)
    ensures
        key.source == other.source && endpoint_hash(key.target) != endpoint_hash(other.target)
            ==> PairStateView::fresh(t, key).rng_state != PairStateView::fresh(t, other).rng_state,
        s != t ==> PairStateView::fresh(s, key).rng_state != PairStateView::fresh(t, key).rng_state,
        PairStateView::fresh(t, key).rng_state == t ^ (endpoint_hash(key.source) << 17)
            ^ endpoint_hash(key.target),
{
    let a = endpoint_hash(key.source) << 17;
    let b = endpoint_hash(key.target);
    let c = endpoint_hash(other.target);
    assert(b != c ==> t ^ a ^ b != t ^ a ^ c) by (bit_vector);
    assert(s != t ==> s ^ a ^ b != t ^ a ^ b) by (bit_vector);
}

/// Once the reservoir is full, the draw for the `n`-th lag is the next number of the generator,
/// below `n`, and the lag takes the place that it names.
pub proof fn law_full_reservoir_draws_a_place(state: PairStateView, lag_ms: u64)
    requires
        state.lags_ms.len() == 64,
        state.total_observations < u64::MAX,
    ensures
        ({
            let n = (state.total_observations + 1) as u64;
            let next = state.rng_state.wrapping_add(0x9E37_79B9_7F4A_7C15);
            let a = (next ^ (next >> 30)).wrapping_mul(0xBF58_476D_1CE4_E5B9);
            let b = (a ^ (a >> 27)).wrapping_mul(0x94D0_49BB_1331_11EB);
            let drawn = (b ^ (b >> 31)) % n;
            let after = state.with_lag(lag_ms);
            &&& after.rng_state == next
            &&& after.total_observations == n
            &&& drawn < 64 ==> after.lags_ms == state.lags_ms.update(drawn as int, lag_ms)
            &&& drawn >= 64 ==> after.lags_ms == state.lags_ms
        }),
{
}

} // verus!

//! Serialized-but-parallelizable calls detection: identifies sequential independent sibling spans
//! that could be executed in parallel.
//!
//! Finds the longest non-overlapping subsequence of sibling spans by dynamic programming over the
//! spans in order of their end.

use crate::arith;
use crate::detect::finding;
use crate::detect::finding::{
    Confidence, Finding, FindingType, FindingView, Pattern, PatternView, Severity,
};
use crate::detect::indices;
use crate::detect::indices::TraceIndices;
use crate::detect::measure;
use crate::event;
use crate::event::{NormalizedEvent, Trace};
use crate::order;
use crate::order::Ranked;
use crate::text;
use crate::time;
use vstd::prelude::*;
use vstd::string::*;

verus! {

/// A sibling span with its times.
#[derive(Debug, Clone, Copy, PartialEq, Eq, Structural)]
pub struct TimedSpan {
    pub start_ms: u64,
    pub end_ms: u64,
    pub duration_us: u64,
    /// Position in the trace.
    pub span_idx: usize,
}

impl Ranked for TimedSpan {
    open spec fn rank_le(&self, other: &Self) -> bool {
        self.end_ms <= other.end_ms
    }

    proof fn rank_total(a: Self, b: Self) {
    }

    proof fn rank_transitive(a: Self, b: Self, c: Self) {
    }

    fn may_precede(&self, other: &Self) -> (r: bool) {
        self.end_ms <= other.end_ms
    }
}

/// The times of the span at a position, if its timestamp can be read.
pub open spec fn timed_span(spans: Seq<NormalizedEvent>, i: usize) -> Option<TimedSpan> {
    let s = spans[i as int];
    match time::timestamp_ms(s.event.timestamp@) {
        Some(ms) => Some(
            TimedSpan {
                start_ms: ms,
                end_ms: arith::capped(ms + s.event.duration_us / 1000),
                duration_us: s.event.duration_us,
                span_idx: i,
            },
        ),
        None => None,
    }
}

/// The siblings whose timestamp can be read.
pub open spec fn timed_children(
    spans: Seq<NormalizedEvent>,
    children: Seq<usize>,
) -> Seq<TimedSpan> {
    children.filter_map(|i: usize| timed_span(spans, i))
}

/// The siblings whose timestamp can be read, in order of their end.
pub open spec fn by_end(spans: Seq<NormalizedEvent>, children: Seq<usize>) -> Seq<TimedSpan> {
    order::ranked(timed_children(spans, children))
}

/// The last of the first `j` spans that ends before, or as, `start` begins.
pub open spec fn last_ending_by(timed: Seq<TimedSpan>, start: u64, j: int) -> Option<usize>
    decreases j,
{
    if j <= 0 {
        None
    } else if timed[j - 1].end_ms <= start {
        Some((j - 1) as usize)
    } else {
        last_ending_by(timed, start, j - 1)
    }
}

/// The predecessor of each span: the last span before it that ends by its start.
pub open spec fn predecessors(timed: Seq<TimedSpan>) -> Seq<Option<usize>> {
    Seq::new(timed.len(), |i: int| last_ending_by(timed, timed[i].start_ms, i))
}

/// Whether every predecessor stands before its span.
pub open spec fn is_backward(pred: Seq<Option<usize>>) -> bool {
    forall|i: int| 0 <= i < pred.len() && (#[trigger] pred[i]) is Some ==> pred[i]->0 < i
}

/// The position of a predecessor; -1 for none.
pub open spec fn back(pred: Seq<Option<usize>>, i: int) -> int {
    match pred[i] {
        Some(p) => if p < i {
            p as int
        } else {
            -1
        },
        None => -1,
    }
}

/// The length of the longest chain among the spans up to position `i`.
pub open spec fn best_len(pred: Seq<Option<usize>>, i: int) -> nat
    decreases i + 1,
{
    if i < 0 {
        0
    } else {
        let with = best_len(pred, back(pred, i)) + 1;
        let without = best_len(pred, i - 1);
        if with >= without {
            with
        } else {
            without
        }
    }
}

/// Whether the chain chosen among the spans up to position `i` ends with span `i`.
pub open spec fn takes(pred: Seq<Option<usize>>, i: int) -> bool {
    best_len(pred, back(pred, i)) + 1 >= best_len(pred, i - 1)
}

/// The chain chosen among the spans up to position `i`: among the longest ones the one that takes
/// the latest spans.
pub open spec fn chosen(pred: Seq<Option<usize>>, i: int) -> Seq<usize>
    decreases i + 1,
{
    if i < 0 {
        Seq::empty()
    } else if takes(pred, i) {
        chosen(pred, back(pred, i)).push(i as usize)
    } else {
        chosen(pred, i - 1)
    }
}

/// The positions met on a walk back from position `i`: a position that is included leads to its
/// predecessor, any other one to the position before it.
pub open spec fn walked(included: Seq<bool>, pred: Seq<Option<usize>>, i: int) -> Seq<usize>
    decreases i + 1,
{
    if i < 0 {
        Seq::empty()
    } else if included[i] {
        walked(included, pred, back(pred, i)).push(i as usize)
    } else {
        walked(included, pred, i - 1)
    }
}

/// The chain chosen among spans in order of their end.
pub open spec fn longest_chain(timed: Seq<TimedSpan>) -> Seq<usize> {
    chosen(predecessors(timed), timed.len() - 1)
}

/// Whether positions ascend and each span ends before, or as, the next one starts.
pub open spec fn is_chain(timed: Seq<TimedSpan>, seq: Seq<usize>) -> bool {
    &&& forall|k: int| 0 <= k < seq.len() ==> #[trigger] seq[k] < timed.len()
    &&& forall|k: int|
        0 < k < seq.len() ==> seq[k - 1] < #[trigger] seq[k] && timed[seq[k - 1] as int].end_ms
            <= timed[seq[k] as int].start_ms
}

/// The spans of a chain.
pub open spec fn chain_spans(timed: Seq<TimedSpan>, seq: Seq<usize>) -> Seq<TimedSpan> {
    seq.map_values(|i: usize| timed[i as int])
}

/// The templates of spans.
pub open spec fn templates(spans: Seq<NormalizedEvent>, chain: Seq<TimedSpan>) -> Seq<Seq<char>> {
    chain.map_values(|t: TimedSpan| spans[t.span_idx as int].template@)
}

/// The timestamps of spans.
pub open spec fn chain_timestamps(
    spans: Seq<NormalizedEvent>,
    chain: Seq<TimedSpan>,
) -> Seq<Seq<char>> {
    chain.map_values(|t: TimedSpan| spans[t.span_idx as int].event.timestamp@)
}

/// The sum of the durations.
pub open spec fn sequential_us(chain: Seq<TimedSpan>) -> nat
    decreases chain.len(),
{
    if chain.len() == 0 {
        0
    } else {
        sequential_us(chain.drop_last()) + chain.last().duration_us as nat
    }
}

/// The longest duration.
pub open spec fn parallel_us(chain: Seq<TimedSpan>) -> u64
    decreases chain.len(),
{
    if chain.len() == 0 {
        0
    } else if chain.last().duration_us > parallel_us(chain.drop_last()) {
        chain.last().duration_us
    } else {
        parallel_us(chain.drop_last())
    }
}

/// A call with its duration.
pub open spec fn call_text(spans: Seq<NormalizedEvent>, t: TimedSpan) -> Seq<char> {
    spans[t.span_idx as int].template@ + " ("@ + text::decimal((t.duration_us / 1000) as nat)
        + "ms)"@
}

/// The calls of a chain, joined by arrows.
pub open spec fn calls_text(spans: Seq<NormalizedEvent>, chain: Seq<TimedSpan>) -> Seq<char>
    decreases chain.len(),
{
    if chain.len() == 0 {
        Seq::empty()
    } else if chain.len() == 1 {
        call_text(spans, chain[0])
    } else {
        calls_text(spans, chain.drop_last()) + " -> "@ + call_text(spans, chain.last())
    }
}

/// The remediation hint for a chain of calls.
pub open spec fn serialized_hint(spans: Seq<NormalizedEvent>, chain: Seq<TimedSpan>) -> Seq<char> {
    text::decimal(chain.len())
        + " sequential independent calls could potentially be parallelized: "@ + calls_text(
        spans,
        chain,
    ) + ". Total sequential: "@ + text::decimal(sequential_us(chain) / 1000)
        + "ms, potential parallel: ~"@ + text::decimal((parallel_us(chain) / 1000) as nat)
        + "ms. If these calls are independent, consider executing them in parallel (e.g., tokio::join!, CompletableFuture.allOf(), Task.WhenAll())"@
}

/// The finding on a chain of siblings, if it is long enough and its calls differ.
pub open spec fn chain_finding(
    trace_id: Seq<char>,
    spans: Seq<NormalizedEvent>,
    parent_id: Seq<char>,
    chain: Seq<TimedSpan>,
    min_seq: nat,
) -> Option<FindingView> {
    let distinct = measure::distinct(templates(spans, chain));
    if chain.len() < min_seq || distinct <= 1 {
        None
    } else {
        let context = indices::context_span(spans, parent_id, spans[chain[0].span_idx as int]);
        let ts = chain_timestamps(spans, chain);
        Some(
            FindingView {
                finding_type: FindingType::SerializedCalls,
                severity: Severity::Info,
                trace_id,
                service: context.event.service@,
                grouping: event::grouping_views(context.event.grouping@),
                source_endpoint: context.event.source.endpoint@,
                pattern: PatternView {
                    template: context.event.source.endpoint@,
                    occurrences: chain.len(),
                    window_ms: measure::window(ts),
                    distinct_params: distinct,
                    occurrences_by_service: Seq::empty(),
                },
                suggestion: serialized_hint(spans, chain),
                first_timestamp: measure::earliest(ts),
                last_timestamp: measure::latest(ts),
                green_impact: None,
                confidence: Confidence::CiBatch,
                classification_method: None,
                code_location: None,
                instrumentation_scopes: Seq::empty(),
                suggested_fix: None,
                signature: Seq::empty(),
            },
        )
    }
}

/// The finding on the children of one parent.
pub open spec fn serialized_finding(
    trace_id: Seq<char>,
    spans: Seq<NormalizedEvent>,
    children: Seq<usize>,
    min_seq: nat,
) -> Option<FindingView> {
    let timed = by_end(spans, children);
    chain_finding(
        trace_id,
        spans,
        indices::shared_parent(spans, children),
        chain_spans(timed, longest_chain(timed)),
        min_seq,
    )
}

/// The findings on serialized calls of a trace, by parent in order of first occurrence.
pub open spec fn serialized_findings(
    trace_id: Seq<char>,
    spans: &Vec<NormalizedEvent>,
    min_seq: nat,
) -> Seq<FindingView> {
    indices::sibling_groups(spans).filter_map(
        |children: Seq<usize>| serialized_finding(trace_id, spans@, children, min_seq),
    )
}

proof fn lemma_last_ending_by(timed: Seq<TimedSpan>, start: u64, j: int)
    requires
        0 <= j <= timed.len(),
        timed.len() <= usize::MAX,
    ensures
        match last_ending_by(timed, start, j) {
            Some(p) => p < j && timed[p as int].end_ms <= start && forall|k: int|
                p < k < j ==> (#[trigger] timed[k]).end_ms > start,
            None => forall|k: int| 0 <= k < j ==> (#[trigger] timed[k]).end_ms > start,
        },
    decreases j,
{
    if j > 0 && timed[j - 1].end_ms > start {
        lemma_last_ending_by(timed, start, j - 1);
    }
}

proof fn lemma_last_ending_by_is(timed: Seq<TimedSpan>, start: u64, j: int, p: int)
    requires
        0 <= p < j <= timed.len(),
        timed.len() <= usize::MAX,
        timed[p].end_ms <= start,
        forall|k: int| p < k < j ==> (#[trigger] timed[k]).end_ms > start,
    ensures
        last_ending_by(timed, start, j) == Some(p as usize),
    decreases j,
{
    if p < j - 1 {
        assert(timed[j - 1].end_ms > start);
        lemma_last_ending_by_is(timed, start, j - 1, p);
    }
}

proof fn lemma_predecessors(timed: Seq<TimedSpan>)
    requires
        timed.len() <= usize::MAX,
    ensures
        is_backward(predecessors(timed)),
{
    assert forall|i: int|
        0 <= i < predecessors(timed).len() && (#[trigger] predecessors(timed)[i])
            is Some implies predecessors(timed)[i]->0 < i by {
        lemma_last_ending_by(timed, timed[i].start_ms, i);
    }
}

/// Position of the first span, in order of their end, that ends after `start`.
fn partition_point(timed: &Vec<TimedSpan>, start: u64) -> (r: usize)
    requires
        order::is_ranked(timed@),
    ensures
        r <= timed@.len(),
        forall|k: int| 0 <= k < r ==> (#[trigger] timed@[k]).end_ms <= start,
        forall|k: int| r <= k < timed@.len() ==> (#[trigger] timed@[k]).end_ms > start,
{
    let mut low: usize = 0;
    let mut high: usize = timed.len();
    while low < high
        invariant
            low <= high <= timed@.len(),
            order::is_ranked(timed@),
            forall|k: int| 0 <= k < low ==> (#[trigger] timed@[k]).end_ms <= start,
            forall|k: int| high <= k < timed@.len() ==> (#[trigger] timed@[k]).end_ms > start,
        decreases high - low,
    {
        let mid = low + (high - low) / 2;
        if timed[mid].end_ms <= start {
            assert forall|k: int| 0 <= k < mid + 1 implies (#[trigger] timed@[k]).end_ms
                <= start by {
                if k < mid {
                    assert(timed@[k].rank_le(&timed@[mid as int]));
                }
            }
            low = mid + 1;
        } else {
            assert forall|k: int| mid <= k < timed@.len() implies (#[trigger] timed@[k]).end_ms
                > start by {
                if k > mid {
                    assert(timed@[mid as int].rank_le(&timed@[k]));
                }
            }
            high = mid;
        }
    }
    low
}

/// The predecessor of each span: the last span before it that ends by its start.
pub fn compute_predecessors(timed: &Vec<TimedSpan>) -> (r: Vec<Option<usize>>)
    requires
        order::is_ranked(timed@),
    ensures
        r@ == predecessors(timed@),
        is_backward(r@),
{
    let mut out: Vec<Option<usize>> = Vec::new();
    let mut i: usize = 0;
    while i < timed.len()
        invariant
            i <= timed@.len(),
            timed.len() <= usize::MAX,
            order::is_ranked(timed@),
            out@.len() == i,
            forall|k: int| 0 <= k < i ==> #[trigger] out@[k] == predecessors(timed@)[k],
        decreases timed@.len() - i,
    {
        let start = timed[i].start_ms;
        let pos = partition_point(timed, start);
        let ending = if pos < i {
            pos
        } else {
            i
        };
        if ending == 0 {
            proof {
                lemma_last_ending_by(timed@, start, i as int);
            }
            out.push(None);
        } else {
            proof {
                lemma_last_ending_by_is(timed@, start, i as int, ending - 1);
            }
            out.push(Some(ending - 1));
        }
        i += 1;
    }
    assert(out@ =~= predecessors(timed@));
    proof {
        lemma_predecessors(timed@);
    }
    out
}

proof fn lemma_best_len_bound(pred: Seq<Option<usize>>, i: int)
    requires
        i >= -1,
    ensures
        best_len(pred, i) <= i + 1,
    decreases i + 1,
{
    if i >= 0 {
        lemma_best_len_bound(pred, i - 1);
        lemma_best_len_bound(pred, back(pred, i));
    }
}

/// The table of the dynamic program: the length of the longest chain up to each span, and whether
/// the chain chosen there ends with that span.
pub fn fill_dp_table(pred: &Vec<Option<usize>>) -> (r: (Vec<usize>, Vec<bool>))
    requires
        pred@.len() > 0,
        forall|i: int|
            0 <= i < pred@.len() && (#[trigger] pred@[i]) is Some ==> pred@[i]->0 < pred@.len(),
    ensures
        r.0@.len() == pred@.len(),
        r.1@.len() == pred@.len(),
        forall|i: int| 0 <= i < pred@.len() ==> #[trigger] r.0@[i] == best_len(pred@, i),
        forall|i: int| 0 <= i < pred@.len() ==> #[trigger] r.1@[i] == takes(pred@, i),
{
    let mut dp: Vec<usize> = Vec::new();
    let mut included: Vec<bool> = Vec::new();
    let mut i: usize = 0;
    while i < pred.len()
        invariant
            i <= pred@.len(),
            dp@.len() == i,
            included@.len() == i,
            forall|k: int| 0 <= k < i ==> #[trigger] dp@[k] == best_len(pred@, k),
            forall|k: int| 0 <= k < i ==> #[trigger] included@[k] == takes(pred@, k),
        decreases pred@.len() - i,
    {
        proof {
            lemma_best_len_bound(pred@, back(pred@, i as int));
        }
        let without = if i == 0 {
            0
        } else {
            dp[i - 1]
        };
        let with = match pred[i] {
            Some(p) => if p < i {
                dp[p] + 1
            } else {
                1
            },
            None => 1,
        };
        if with >= without {
            dp.push(with);
            included.push(true);
        } else {
            dp.push(without);
            included.push(false);
        }
        i += 1;
    }
    (dp, included)
}

/// The positions that are met on a walk back from the last one, in ascending order. A predecessor
/// that does not stand before its span ends the walk.
pub fn backtrack_selection(included: &Vec<bool>, pred: &Vec<Option<usize>>) -> (r: Vec<usize>)
    requires
        pred@.len() > 0,
        included@.len() == pred@.len(),
    ensures
        r@ == walked(included@, pred@, pred@.len() - 1),
{
    let mut selected: Vec<usize> = Vec::new();
    let n = pred.len();
    let ghost all = walked(included@, pred@, n - 1);
    // One more than the position that is looked at next.
    let mut left: usize = n;
    assert(walked(included@, pred@, n - 1) + selected@.reverse() =~= all);
    while left > 0
        invariant
            left <= n,
            n == pred@.len(),
            included@.len() == pred@.len(),
            all == walked(included@, pred@, left - 1) + selected@.reverse(),
        decreases left,
    {
        let i = left - 1;
        let ghost before = selected@;
        if included[i] {
            selected.push(i);
            proof {
                assert(selected@.reverse() =~= seq![i] + before.reverse());
                assert(all =~= walked(included@, pred@, back(pred@, i as int)) + selected@.reverse());
            }
            left = match pred[i] {
                Some(p) => if p < i {
                    p + 1
                } else {
                    0
                },
                None => 0,
            };
        } else {
            left = i;
        }
    }
    let mut out: Vec<usize> = Vec::new();
    let mut k: usize = selected.len();
    while k > 0
        invariant
            k <= selected@.len(),
            out@ == selected@.reverse().take(selected@.len() - k),
        decreases k,
    {
        k -= 1;
        out.push(selected[k]);
        assert(out@ =~= selected@.reverse().take(selected@.len() - k));
    }
    assert(out@ =~= all);
    out
}

proof fn lemma_walked_is_chosen(included: Seq<bool>, pred: Seq<Option<usize>>, i: int)
    requires
        -1 <= i < pred.len(),
        forall|k: int| 0 <= k < pred.len() ==> #[trigger] included[k] == takes(pred, k),
    ensures
        walked(included, pred, i) == chosen(pred, i),
    decreases i + 1,
{
    if i >= 0 {
        lemma_walked_is_chosen(included, pred, i - 1);
        lemma_walked_is_chosen(included, pred, back(pred, i));
    }
}

/// The longest non-overlapping subsequence of spans in order of their end.
pub fn longest_non_overlapping(timed: &Vec<TimedSpan>) -> (r: Vec<usize>)
    requires
        order::is_ranked(timed@),
    ensures
        r@ == longest_chain(timed@),
{
    if timed.len() == 0 {
        return Vec::new();
    }
    let pred = compute_predecessors(timed);
    let (_, included) = fill_dp_table(&pred);
    proof {
        lemma_walked_is_chosen(included@, pred@, pred@.len() - 1);
    }
    backtrack_selection(&included, &pred)
}

proof fn lemma_chosen(timed: Seq<TimedSpan>, i: int)
    requires
        order::is_ranked(timed),
        -1 <= i < timed.len(),
        timed.len() <= usize::MAX,
    ensures
        is_chain(timed, chosen(predecessors(timed), i)),
        chosen(predecessors(timed), i).len() == best_len(predecessors(timed), i),
        chosen(predecessors(timed), i).len() > 0 ==> chosen(predecessors(timed), i).last() <= i,
        i >= 0 ==> chosen(predecessors(timed), i).len() > 0,
    decreases i + 1,
{
    if i >= 0 {
        let pred = predecessors(timed);
        let b = back(pred, i);
        lemma_predecessors(timed);
        lemma_last_ending_by(timed, timed[i].start_ms, i);
        lemma_chosen(timed, i - 1);
        lemma_chosen(timed, b);
        if takes(pred, i) {
            let rest = chosen(pred, b);
            if b >= 0 {
                lemma_ends_with_chosen(timed, b);
                lemma_chain_end_bound(timed, b, i);
            }
            lemma_extend_chain(timed, rest, i);
        }
    }
}

proof fn lemma_extend_chain(timed: Seq<TimedSpan>, rest: Seq<usize>, i: int)
    requires
        is_chain(timed, rest),
        0 <= i < timed.len(),
        timed.len() <= usize::MAX,
        rest.len() > 0 ==> rest.last() < i && timed[rest.last() as int].end_ms
            <= timed[i].start_ms,
    ensures
        is_chain(timed, rest.push(i as usize)),
{
    let r = rest.push(i as usize);
    assert forall|k: int| 0 <= k < r.len() implies #[trigger] r[k] < timed.len() by {
        if k < rest.len() {
            assert(rest[k] < timed.len());
        }
    }
    assert forall|k: int| 0 < k < r.len() implies r[k - 1] < #[trigger] r[k]
        && timed[r[k - 1] as int].end_ms <= timed[r[k] as int].start_ms by {
        if k < rest.len() {
            assert(rest[k - 1] < rest[k]);
        } else {
            assert(r[k - 1] == rest.last());
        }
    }
}

/// The chain chosen up to a span ends with a span that ends no later.
proof fn lemma_ends_with_chosen(timed: Seq<TimedSpan>, b: int)
    requires
        0 <= b < timed.len(),
        timed.len() <= usize::MAX,
    ensures
        chosen(predecessors(timed), b).len() > 0,
        chosen(predecessors(timed), b).last() <= b,
    decreases b + 1,
{
    let pred = predecessors(timed);
    if !takes(pred, b) {
        if b > 0 {
            lemma_ends_with_chosen(timed, b - 1);
        } else {
            assert(best_len(pred, -1) == 0);
        }
    }
}

proof fn lemma_chain_end_bound(timed: Seq<TimedSpan>, b: int, i: int)
    requires
        0 <= b < i < timed.len(),
        timed.len() <= usize::MAX,
        last_ending_by(timed, timed[i].start_ms, i) == Some(b as usize),
        chosen(predecessors(timed), b).len() > 0,
        chosen(predecessors(timed), b).last() <= b,
        order::is_ranked(timed),
    ensures
        timed[chosen(predecessors(timed), b).last() as int].end_ms <= timed[i].start_ms,
{
    lemma_last_ending_by(timed, timed[i].start_ms, i);
    let l = chosen(predecessors(timed), b).last() as int;
    if l < b {
        assert(timed[l].rank_le(&timed[b]));
    }
}

proof fn lemma_chain_no_longer(timed: Seq<TimedSpan>, seq: Seq<usize>, i: int)
    requires
        order::is_ranked(timed),
        timed.len() <= usize::MAX,
        is_chain(timed, seq),
        seq.len() > 0 ==> seq.last() <= i,
        -1 <= i < timed.len(),
    ensures
        seq.len() <= best_len(predecessors(timed), i),
    decreases i + 1,
{
    let pred = predecessors(timed);
    if seq.len() > 0 {
        let last = seq.last() as int;
        if last < i {
            lemma_chain_no_longer(timed, seq, i - 1);
        } else {
            let rest = seq.drop_last();
            assert(is_chain(timed, rest)) by {
                assert forall|k: int| 0 < k < rest.len() implies rest[k - 1] < #[trigger] rest[k]
                    && timed[rest[k - 1] as int].end_ms <= timed[rest[k] as int].start_ms by {
                    assert(seq[k - 1] < seq[k]);
                }
                assert forall|k: int| 0 <= k < rest.len() implies #[trigger] rest[k]
                    < timed.len() by {
                    assert(seq[k] < timed.len());
                }
            }
            lemma_last_ending_by(timed, timed[i].start_ms, i);
            if rest.len() > 0 {
                let p = rest.last() as int;
                assert(seq[seq.len() - 2] < seq[seq.len() - 1]);
                assert(timed[p].end_ms <= timed[i].start_ms);
                assert(p <= back(pred, i));
            }
            lemma_chain_no_longer(timed, rest, back(pred, i));
        }
    }
}

/// The chain that is found is a chain, and no chain is longer.
pub proof fn law_longest_chain_is_optimal(timed: Seq<TimedSpan>, other: Seq<usize>)
    requires
        order::is_ranked(timed),
        timed.len() <= usize::MAX,
        is_chain(timed, other),
    ensures
        is_chain(timed, longest_chain(timed)),
        other.len() <= longest_chain(timed).len(),
{
    lemma_chosen(timed, timed.len() - 1);
    if other.len() > 0 {
        assert(other[other.len() - 1] < timed.len());
    }
    lemma_chain_no_longer(timed, other, timed.len() - 1);
}

proof fn lemma_timed_children(spans: Seq<NormalizedEvent>, children: Seq<usize>)
    ensures
        timed_children(spans, children).len() <= children.len(),
        forall|k: int|
            0 <= k < timed_children(spans, children).len() ==> children.contains(
                (#[trigger] timed_children(spans, children)[k]).span_idx,
            ),
    decreases children.len(),
{
    if children.len() > 0 {
        let rest = children.drop_last();
        lemma_timed_children(spans, rest);
        let q = timed_children(spans, rest);
        let r = timed_children(spans, children);
        assert(r == (match timed_span(spans, children.last()) {
            Some(t) => q + seq![t],
            None => q,
        }));
        assert forall|k: int| 0 <= k < r.len() implies children.contains(
            (#[trigger] r[k]).span_idx,
        ) by {
            if k < q.len() {
                assert(r[k] == q[k]);
                assert(rest.contains(q[k].span_idx));
                let m = choose|m: int| 0 <= m < rest.len() && rest[m] == q[k].span_idx;
                assert(children[m] == r[k].span_idx);
            } else {
                assert(children[children.len() - 1] == r[k].span_idx);
            }
        }
    }
}

/// The siblings whose timestamp can be read, in order of their end.
fn timed_siblings(trace: &Trace, children: &Vec<usize>) -> (r: Vec<TimedSpan>)
    requires
        forall|k: int| 0 <= k < children@.len() ==> #[trigger] children@[k] < trace.spans@.len(),
    ensures
        r@ == by_end(trace.spans@, children@),
        order::is_ranked(r@),
        r@.len() <= children@.len(),
        forall|k: int| 0 <= k < r@.len() ==> (#[trigger] r@[k]).span_idx < trace.spans@.len(),
{
    let mut timed: Vec<TimedSpan> = Vec::new();
    let mut i: usize = 0;
    assert(timed@ =~= timed_children(trace.spans@, children@.take(0)));
    while i < children.len()
        invariant
            i <= children@.len(),
            forall|k: int|
                0 <= k < children@.len() ==> #[trigger] children@[k] < trace.spans@.len(),
            timed@ == timed_children(trace.spans@, children@.take(i as int)),
        decreases children@.len() - i,
    {
        let idx = children[i];
        let span = &trace.spans[idx];
        proof {
            assert(children@.take(i + 1).drop_last() =~= children@.take(i as int));
            assert(children@.take(i + 1).last() == idx);
        }
        if let Some(start_ms) = time::parse_iso8601_utc_to_ms(span.event.timestamp.as_str()) {
            timed.push(
                TimedSpan {
                    start_ms,
                    end_ms: arith::capped_sum(start_ms, span.event.duration_us / 1000),
                    duration_us: span.event.duration_us,
                    span_idx: idx,
                },
            );
        }
        assert(timed@ =~= timed_children(trace.spans@, children@.take(i + 1)));
        i += 1;
    }
    assert(children@.take(i as int) =~= children@);
    let ghost unsorted = timed@;
    let sorted = order::sort_ranked(timed);
    proof {
        order::lemma_ranked(unsorted);
        lemma_timed_children(trace.spans@, children@);
        broadcast use vstd::seq_lib::group_to_multiset_ensures;

        assert forall|k: int| 0 <= k < sorted@.len() implies (#[trigger] sorted@[k]).span_idx
            < trace.spans@.len() by {
            assert(sorted@.contains(sorted@[k]));
            assert(unsorted.to_multiset().count(sorted@[k]) > 0);
            assert(unsorted.contains(sorted@[k]));
            let m = choose|m: int| 0 <= m < unsorted.len() && unsorted[m] == sorted@[k];
            assert(children@.contains(unsorted[m].span_idx));
            let q = choose|q: int| 0 <= q < children@.len() && children@[q] == sorted@[k].span_idx;
            assert(children@[q] < trace.spans@.len());
        }
    }
    sorted
}

fn count_templates(trace: &Trace, chain: &Vec<TimedSpan>) -> (r: usize)
    requires
        forall|k: int| 0 <= k < chain@.len() ==> (#[trigger] chain@[k]).span_idx
            < trace.spans@.len(),
    ensures
        r == measure::distinct(templates(trace.spans@, chain@)),
{
    let ghost ts = templates(trace.spans@, chain@);
    let mut count: usize = 0;
    let mut i: usize = 0;
    proof {
        measure::lemma_distinct_bound(ts.take(0));
    }
    while i < chain.len()
        invariant
            i <= chain@.len(),
            forall|k: int|
                0 <= k < chain@.len() ==> (#[trigger] chain@[k]).span_idx < trace.spans@.len(),
            ts == templates(trace.spans@, chain@),
            count == measure::distinct(ts.take(i as int)),
            count <= i,
        decreases chain@.len() - i,
    {
        let mut j: usize = 0;
        while j < i && trace.spans[chain[j].span_idx].template
            != trace.spans[chain[i].span_idx].template
            invariant
                j <= i < chain@.len(),
                forall|k: int|
                    0 <= k < chain@.len() ==> (#[trigger] chain@[k]).span_idx
                        < trace.spans@.len(),
                ts == templates(trace.spans@, chain@),
                forall|k: int| 0 <= k < j ==> #[trigger] ts[k] != ts[i as int],
            decreases i - j,
        {
            j += 1;
        }
        proof {
            let seen = ts.take(i as int);
            measure::lemma_distinct_push(seen, ts[i as int]);
            assert(ts.take(i + 1) =~= seen.push(ts[i as int]));
            if j < i {
                assert(seen[j as int] == ts[i as int]);
            } else if seen.contains(ts[i as int]) {
                let k = choose|k: int| 0 <= k < seen.len() && seen[k] == ts[i as int];
                assert(ts[k] == ts[i as int]);
            }
        }
        if j == i {
            count += 1;
        }
        i += 1;
    }
    assert(ts.take(i as int) =~= ts);
    count
}

fn append_calls(out: &mut String, trace: &Trace, chain: &Vec<TimedSpan>)
    requires
        forall|k: int| 0 <= k < chain@.len() ==> (#[trigger] chain@[k]).span_idx
            < trace.spans@.len(),
    ensures
        final(out)@ == old(out)@ + calls_text(trace.spans@, chain@),
{
    let ghost start = out@;
    let mut i: usize = 0;
    assert(out@ =~= start + calls_text(trace.spans@, chain@.take(0)));
    while i < chain.len()
        invariant
            i <= chain@.len(),
            forall|k: int|
                0 <= k < chain@.len() ==> (#[trigger] chain@[k]).span_idx < trace.spans@.len(),
            out@ == start + calls_text(trace.spans@, chain@.take(i as int)),
        decreases chain@.len() - i,
    {
        proof {
            assert(chain@.take(i + 1).drop_last() =~= chain@.take(i as int));
            assert(chain@.take(i + 1).last() == chain@[i as int]);
        }
        if i > 0 {
            out.append(" -> ");
        }
        out.append(trace.spans[chain[i].span_idx].template.as_str());
        out.append(" (");
        text::append_decimal(out, chain[i].duration_us / 1000);
        out.append("ms)");
        assert(out@ =~= start + calls_text(trace.spans@, chain@.take(i + 1)));
        i += 1;
    }
    assert(chain@.take(i as int) =~= chain@);
}

fn serialized_suggestion(trace: &Trace, chain: &Vec<TimedSpan>) -> (r: String)
    requires
        forall|k: int| 0 <= k < chain@.len() ==> (#[trigger] chain@[k]).span_idx
            < trace.spans@.len(),
    ensures
        r@ == serialized_hint(trace.spans@, chain@),
{
    let mut total: u128 = 0;
    let mut longest: u64 = 0;
    let mut i: usize = 0;
    while i < chain.len()
        invariant
            i <= chain@.len(),
            chain.len() <= usize::MAX,
            total == sequential_us(chain@.take(i as int)),
            total <= i * 0xffff_ffff_ffff_ffff,
            longest == parallel_us(chain@.take(i as int)),
        decreases chain@.len() - i,
    {
        let d = chain[i].duration_us;
        proof {
            assert(chain@.take(i + 1).drop_last() =~= chain@.take(i as int));
            assert(chain@.take(i + 1).last() == chain@[i as int]);
        }
        total = total + d as u128;
        if d > longest {
            longest = d;
        }
        i += 1;
    }
    assert(chain@.take(i as int) =~= chain@);
    let mut out = String::new();
    text::append_decimal(&mut out, chain.len() as u64);
    out.append(" sequential independent calls could potentially be parallelized: ");
    append_calls(&mut out, trace, chain);
    out.append(". Total sequential: ");
    text::append_wide_decimal(&mut out, total / 1000);
    out.append("ms, potential parallel: ~");
    text::append_decimal(&mut out, longest / 1000);
    out.append(
        "ms. If these calls are independent, consider executing them in parallel (e.g., tokio::join!, CompletableFuture.allOf(), Task.WhenAll())",
    );
    assert(out@ =~= serialized_hint(trace.spans@, chain@));
    out
}

/// The finding on a chain of siblings, if it is long enough and its calls differ.
fn evaluate_sequence(
    trace: &Trace,
    relations: &TraceIndices<'_>,
    parent_id: &str,
    chain: &Vec<TimedSpan>,
    min_seq: usize,
) -> (r: Option<Finding>)
    requires
        relations.describes(*trace),
        forall|k: int| 0 <= k < chain@.len() ==> (#[trigger] chain@[k]).span_idx
            < trace.spans@.len(),
    ensures
        ({
            let expected = chain_finding(
                trace.trace_id@,
                trace.spans@,
                parent_id@,
                chain@,
                min_seq as nat,
            );
            match r {
                Some(f) => expected == Some(f@),
                None => expected is None,
            }
        }),
{
    if chain.len() < min_seq {
        return None;
    }
    let distinct = count_templates(trace, chain);
    if distinct <= 1 {
        return None;
    }
    proof {
        measure::lemma_distinct_bound(templates(trace.spans@, chain@));
    }
    let context = relations.context(trace, parent_id, chain[0].span_idx);
    let mut stamps: Vec<&str> = Vec::new();
    let mut i: usize = 0;
    while i < chain.len()
        invariant
            i <= chain@.len(),
            forall|k: int|
                0 <= k < chain@.len() ==> (#[trigger] chain@[k]).span_idx < trace.spans@.len(),
            stamps@.len() == i,
            forall|k: int|
                0 <= k < i ==> (#[trigger] stamps@[k])@ == chain_timestamps(trace.spans@, chain@)[k],
        decreases chain@.len() - i,
    {
        stamps.push(trace.spans[chain[i].span_idx].event.timestamp.as_str());
        i += 1;
    }
    assert(stamps@.map_values(|t: &str| t@) =~= chain_timestamps(trace.spans@, chain@));
    let (window_ms, first_ts, last_ts) = measure::compute_window_and_bounds(stamps.as_slice());
    let f = Finding {
        finding_type: FindingType::SerializedCalls,
        severity: Severity::Info,
        trace_id: trace.trace_id.clone(),
        service: context.event.service.clone(),
        grouping: event::copy_grouping(&context.event.grouping),
        source_endpoint: context.event.source.endpoint.clone(),
        pattern: Pattern {
            template: context.event.source.endpoint.clone(),
            occurrences: chain.len(),
            window_ms,
            distinct_params: distinct,
            occurrences_by_service: Vec::new(),
        },
        suggestion: serialized_suggestion(trace, chain),
        first_timestamp: first_ts.to_string(),
        last_timestamp: last_ts.to_string(),
        green_impact: None,
        confidence: Confidence::default(),
        classification_method: None,
        code_location: None,
        instrumentation_scopes: Vec::new(),
        suggested_fix: None,
        signature: String::new(),
    };
    assert(finding::service_counts(f.pattern.occurrences_by_service@) =~= Seq::empty());
    assert(event::texts(f.instrumentation_scopes@) =~= Seq::empty());
    Some(f)
}

fn siblings_finding(
    trace: &Trace,
    relations: &TraceIndices<'_>,
    k: usize,
    min_seq: usize,
) -> (r: Option<Finding>)
    requires
        relations.describes(*trace),
        k < relations.children_by_parent@.len(),
    ensures
        ({
            let expected = serialized_finding(
                trace.trace_id@,
                trace.spans@,
                indices::sibling_groups(&trace.spans)[k as int],
                min_seq as nat,
            );
            match r {
                Some(f) => expected == Some(f@),
                None => expected is None,
            }
        }),
{
    let children = &relations.children_by_parent[k].children;
    let parent_id = relations.children_by_parent[k].parent_id;
    let timed = timed_siblings(trace, children);
    proof {
        lemma_chosen(timed@, timed@.len() - 1);
        lemma_best_len_bound(predecessors(timed@), timed@.len() - 1);
    }
    if timed.len() < min_seq {
        return None;
    }
    let best = longest_non_overlapping(&timed);
    let mut chain: Vec<TimedSpan> = Vec::new();
    let mut i: usize = 0;
    while i < best.len()
        invariant
            i <= best@.len(),
            is_chain(timed@, best@),
            chain@.len() == i,
            forall|m: int| 0 <= m < i ==> #[trigger] chain@[m] == timed@[best@[m] as int],
            forall|m: int| 0 <= m < timed@.len() ==> (#[trigger] timed@[m]).span_idx
                < trace.spans@.len(),
        decreases best@.len() - i,
    {
        chain.push(timed[best[i]]);
        i += 1;
    }
    assert(chain@ =~= chain_spans(timed@, longest_chain(timed@)));
    evaluate_sequence(trace, relations, parent_id, &chain, min_seq)
}

/// Detect serialized-but-parallelizable call sequences within a trace.
///
/// Finds siblings that run one after the other with different templates, and reports the longest
/// such sequence of each parent if it has `min_sequential` calls or more. A sequence of calls that
/// all share one template is left to the N+1 detection.
pub fn detect_serialized(
    trace: &Trace,
    relations: &TraceIndices<'_>,
    min_sequential: u32,
) -> (r: Vec<Finding>)
    requires
        relations.describes(*trace),
    ensures
        finding::finding_views(r@) == serialized_findings(
            trace.trace_id@,
            &trace.spans,
            min_sequential as nat,
        ),
{
    let ghost f = |children: Seq<usize>|
        serialized_finding(trace.trace_id@, trace.spans@, children, min_sequential as nat);
    let ghost all = indices::sibling_groups(&trace.spans);
    let mut findings: Vec<Finding> = Vec::new();
    let mut k: usize = 0;
    assert(finding::finding_views(findings@) =~= all.take(0).filter_map(f));
    while k < relations.children_by_parent.len()
        invariant
            k <= relations.children_by_parent@.len(),
            relations.describes(*trace),
            all == indices::sibling_groups(&trace.spans),
            f == (|children: Seq<usize>|
                serialized_finding(
                    trace.trace_id@,
                    trace.spans@,
                    children,
                    min_sequential as nat,
                )),
            finding::finding_views(findings@) == all.take(k as int).filter_map(f),
        decreases relations.children_by_parent@.len() - k,
    {
        let ghost before = findings@;
        proof {
            assert(all.take(k + 1).drop_last() =~= all.take(k as int));
            assert(all.take(k + 1).last() == all[k as int]);
        }
        if let Some(finding) = siblings_finding(trace, relations, k, min_sequential as usize) {
            findings.push(finding);
            assert(finding::finding_views(findings@) =~= finding::finding_views(before).push(
                finding@,
            ));
        }
        assert(finding::finding_views(findings@) =~= all.take(k + 1).filter_map(f));
        k += 1;
    }
    assert(all.take(k as int) =~= all);
    findings
}

#[verifier::rlimit(80)]
#[verifier::spinoff_prover]
proof fn lemma_chosen_latest(timed: Seq<TimedSpan>, other: Seq<usize>, i: int) -> (k: int)
    requires
        order::is_ranked(timed),
        timed.len() <= usize::MAX,
        is_chain(timed, other),
        other.len() > 0 ==> other.last() <= i,
        -1 <= i < timed.len(),
        other.len() == best_len(predecessors(timed), i),
    ensures
        other == chosen(predecessors(timed), i) || (0 <= k < other.len() && other[k] < chosen(
            predecessors(timed),
            i,
        )[k] && forall|j: int|
            k < j < other.len() ==> #[trigger] other[j] == chosen(predecessors(timed), i)[j]),
    decreases i + 1,
{
    let pred = predecessors(timed);
    let best = chosen(pred, i);
    lemma_chosen(timed, i);
    if i < 0 {
        assert(other =~= best);
        -1
    } else {
        let rest = other.drop_last();
        let b = back(pred, i);
        lemma_predecessors(timed);
        lemma_last_ending_by(timed, timed[i].start_ms, i);
        assert(is_chain(timed, rest)) by {
            assert forall|k: int| 0 < k < rest.len() implies rest[k - 1] < #[trigger] rest[k]
                && timed[rest[k - 1] as int].end_ms <= timed[rest[k] as int].start_ms by {
                assert(other[k - 1] < other[k]);
            }
        }
        if other.last() == i {
            if rest.len() > 0 {
                assert(other[other.len() - 2] < other[other.len() - 1]);
                assert(rest.last() == other[other.len() - 2]);
                assert(rest.last() <= b);
            }
            lemma_chain_no_longer(timed, rest, b);
            assert(takes(pred, i));
            let k = lemma_chosen_latest(timed, rest, b);
            let front = chosen(pred, b);
            assert(best == front.push(i as usize));
            assert(other =~= rest.push(i as usize));
            if rest != front {
                lemma_chosen(timed, b);
                assert(other[k] < best[k]);
                assert forall|j: int| k < j < other.len() implies #[trigger] other[j]
                    == best[j] by {
                    if j < rest.len() {
                        assert(rest[j] == front[j]);
                    }
                }
            }
            k
        } else if takes(pred, i) {
            assert(best.last() == i as usize);
            assert(other[other.len() - 1] < best[other.len() - 1]);
            other.len() - 1
        } else {
            lemma_chosen_latest(timed, other, i - 1)
        }
    }
}

/// Of the longest chains the one that takes the latest spans is chosen: at the last position at
/// which another one differs from it, the other one takes an earlier span.
pub proof fn law_longest_chain_takes_the_latest_spans(
    timed: Seq<TimedSpan>,
    other: Seq<usize>,
) -> (k: int)
    requires
        order::is_ranked(timed),
        timed.len() <= usize::MAX,
        is_chain(timed, other),
        other.len() == longest_chain(timed).len(),
        other != longest_chain(timed),
    ensures
        0 <= k < other.len(),
        other[k] < longest_chain(timed)[k],
        forall|j: int| k < j < other.len() ==> #[trigger] other[j] == longest_chain(timed)[j],
{
    lemma_chosen(timed, timed.len() - 1);
    if other.len() > 0 {
        assert(other[other.len() - 1] < timed.len());
    }
    lemma_chosen_latest(timed, other, timed.len() - 1)
}

} // verus!

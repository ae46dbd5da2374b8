//! Chatty service detection: identifies traces with excessive inter-service HTTP calls.

use crate::detect::fanout;
use crate::detect::finding;
use crate::detect::finding::{
    Confidence, Finding, FindingType, FindingView, Pattern, PatternView,
};
use crate::detect::grouping;
use crate::detect::grouping::Classifier;
use crate::detect::measure;
use crate::event;
use crate::event::{EventType, NormalizedEvent, Trace};
use crate::permutation;
use crate::text;
use vstd::prelude::*;
use vstd::string::*;

verus! {

/// The outbound HTTP calls of a trace by template.
pub struct HttpTargets {}

impl Classifier<NormalizedEvent> for HttpTargets {
    type Key = Seq<char>;

    open spec fn judges(&self, span: NormalizedEvent) -> bool {
        true
    }

    open spec fn included(&self, span: NormalizedEvent) -> bool {
        span.event.event_type is HttpOut
    }

    open spec fn key(&self, span: NormalizedEvent) -> Seq<char> {
        span.template@
    }

    fn includes(&self, span: &NormalizedEvent) -> (r: bool) {
        span.event.event_type == EventType::HttpOut
    }

    fn same_key(&self, a: &NormalizedEvent, b: &NormalizedEvent) -> (r: bool) {
        a.template == b.template
    }
}

/// Whether a span is an outbound HTTP call.
pub open spec fn is_http() -> spec_fn(NormalizedEvent) -> bool {
    |s: NormalizedEvent| s.event.event_type is HttpOut
}

/// The outbound HTTP calls of a trace, in order.
pub open spec fn http_calls(spans: Seq<NormalizedEvent>) -> Seq<NormalizedEvent> {
    spans.filter(is_http())
}

/// The largest of the first `k` groups other than `skip`, the first one among equals; -1 if there
/// is none.
pub open spec fn busiest(groups: Seq<Seq<NormalizedEvent>>, skip: int, k: int) -> int
    decreases k,
{
    if k <= 0 {
        -1
    } else {
        let b = busiest(groups, skip, k - 1);
        if k - 1 == skip || (b >= 0 && groups[k - 1].len() <= groups[b].len()) {
            b
        } else {
            k - 1
        }
    }
}

/// A target with the number of its calls.
pub open spec fn target_text(group: Seq<NormalizedEvent>) -> Seq<char> {
    group[0].template@ + " x"@ + text::decimal(group.len())
}

/// The two busiest targets with the numbers of their calls.
pub open spec fn top_targets(groups: Seq<Seq<NormalizedEvent>>) -> Seq<char> {
    let n = groups.len() as int;
    let first = busiest(groups, -1, n);
    let second = busiest(groups, first, n);
    if second < 0 {
        target_text(groups[first])
    } else {
        target_text(groups[first]) + ", "@ + target_text(groups[second])
    }
}

/// The remediation hint for a chatty trace.
pub open spec fn chatty_hint(endpoint: Seq<char>, count: nat, top: Seq<char>) -> Seq<char> {
    "Chatty trace: "@ + endpoint + " triggers "@ + text::decimal(count)
        + " inter-service HTTP calls (top: "@ + top
        + "). Consider aggregating calls with a batch endpoint or a BFF (Backend for Frontend) layer"@
}

/// The finding on a trace with more than `min_calls` outbound HTTP calls.
pub open spec fn chatty_findings(
    trace_id: Seq<char>,
    spans: Seq<NormalizedEvent>,
    min_calls: nat,
) -> Seq<FindingView> {
    let calls = http_calls(spans);
    let count = calls.len();
    if count <= min_calls {
        Seq::empty()
    } else {
        let targets = grouping::groups(HttpTargets {  }, spans);
        let endpoint = calls[0].event.source.endpoint@;
        let ts = measure::timestamps(calls);
        seq![
            FindingView {
                finding_type: FindingType::ChattyService,
                severity: fanout::excess_severity(count, min_calls),
                trace_id,
                service: calls[0].event.service@,
                grouping: event::grouping_views(calls[0].event.grouping@),
                source_endpoint: endpoint,
                pattern: PatternView {
                    template: endpoint,
                    occurrences: count,
                    window_ms: measure::window(ts),
                    distinct_params: targets.len(),
                    occurrences_by_service: Seq::empty(),
                },
                suggestion: chatty_hint(endpoint, count, top_targets(targets)),
                first_timestamp: measure::earliest(ts),
                last_timestamp: measure::latest(ts),
                green_impact: None,
                confidence: Confidence::CiBatch,
                classification_method: None,
                code_location: None,
                instrumentation_scopes: Seq::empty(),
                suggested_fix: None,
                signature: Seq::empty(),
            },
        ]
    }
}

fn http_indices(spans: &Vec<NormalizedEvent>) -> (r: Vec<usize>)
    ensures
        grouping::at_positions(spans@, r@) == http_calls(spans@),
        forall|k: int| 0 <= k < r@.len() ==> #[trigger] r@[k] < spans@.len(),
{
    let mut out: Vec<usize> = Vec::new();
    let mut i: usize = 0;
    proof {
        reveal(Seq::filter);
        assert(grouping::at_positions(spans@, out@) =~= http_calls(spans@.take(0)));
    }
    while i < spans.len()
        invariant
            i <= spans@.len(),
            grouping::at_positions(spans@, out@) == http_calls(spans@.take(i as int)),
            forall|k: int| 0 <= k < out@.len() ==> #[trigger] out@[k] < spans@.len(),
        decreases spans@.len() - i,
    {
        let ghost before = out@;
        proof {
            reveal(Seq::filter);
            assert(spans@.take(i + 1).drop_last() =~= spans@.take(i as int));
        }
        if spans[i].event.event_type == EventType::HttpOut {
            out.push(i);
            assert(grouping::at_positions(spans@, out@) =~= grouping::at_positions(
                spans@,
                before,
            ).push(spans@[i as int]));
        }
        i += 1;
    }
    assert(spans@.take(i as int) =~= spans@);
    out
}

fn busiest_of(groups: &Vec<Vec<usize>>, skip: usize, Ghost(all): Ghost<Seq<Seq<NormalizedEvent>>>) -> (r:
    Option<usize>)
    requires
        groups@.len() == all.len(),
        forall|k: int| 0 <= k < all.len() ==> (#[trigger] groups@[k])@.len() == all[k].len(),
    ensures
        ({
            let skipped = if skip < all.len() {
                skip as int
            } else {
                -1
            };
            match r {
                Some(i) => i < all.len() && i == busiest(all, skipped, all.len() as int),
                None => busiest(all, skipped, all.len() as int) == -1,
            }
        }),
{
    let ghost skipped = if skip < all.len() {
        skip as int
    } else {
        -1
    };
    let mut best: Option<usize> = None;
    let mut k: usize = 0;
    while k < groups.len()
        invariant
            k <= groups@.len(),
            groups@.len() == all.len(),
            skipped == (if skip < all.len() {
                skip as int
            } else {
                -1
            }),
            forall|m: int| 0 <= m < all.len() ==> (#[trigger] groups@[m])@.len() == all[m].len(),
            match best {
                Some(i) => i < k && i == busiest(all, skipped, k as int),
                None => busiest(all, skipped, k as int) == -1,
            },
        decreases groups@.len() - k,
    {
        if k != skip {
            match best {
                Some(b) => {
                    if groups[k].len() > groups[b].len() {
                        best = Some(k);
                    }
                },
                None => {
                    best = Some(k);
                },
            }
        }
        k += 1;
    }
    best
}

fn append_target(out: &mut String, spans: &Vec<NormalizedEvent>, indices: &Vec<usize>)
    requires
        forall|k: int| 0 <= k < indices@.len() ==> #[trigger] indices@[k] < spans@.len(),
        indices@.len() > 0,
    ensures
        final(out)@ == old(out)@ + target_text(grouping::at_positions(spans@, indices@)),
{
    out.append(spans[indices[0]].template.as_str());
    out.append(" x");
    text::append_decimal(out, indices.len() as u64);
    assert(out@ =~= old(out)@ + target_text(grouping::at_positions(spans@, indices@)));
}

fn top_text(spans: &Vec<NormalizedEvent>, groups: &Vec<Vec<usize>>) -> (r: String)
    requires
        groups@.len() > 0,
        groups@.len() == grouping::groups(HttpTargets {  }, spans@).len(),
        forall|k: int|
            0 <= k < groups@.len() ==> grouping::at_positions(spans@, (#[trigger] groups@[k])@)
                == grouping::groups(HttpTargets {  }, spans@)[k],
        forall|k: int|
            0 <= k < groups@.len() ==> grouping::ascending_positions(
                (#[trigger] groups@[k])@,
                spans@.len(),
            ) && groups@[k]@.len() > 0,
    ensures
        r@ == top_targets(grouping::groups(HttpTargets {  }, spans@)),
{
    let ghost all = grouping::groups(HttpTargets {  }, spans@);
    assert forall|k: int| 0 <= k < all.len() implies (#[trigger] groups@[k])@.len()
        == all[k].len() by {
        assert(grouping::at_positions(spans@, groups@[k]@) == all[k]);
    }
    let mut out = String::new();
    let n = groups.len();
    if let Some(first) = busiest_of(groups, n, Ghost(all)) {
        append_target(&mut out, spans, &groups[first]);
        if let Some(second) = busiest_of(groups, first, Ghost(all)) {
            out.append(", ");
            append_target(&mut out, spans, &groups[second]);
        }
        assert(out@ =~= top_targets(all));
    } else {
        proof {
            lemma_busiest_exists(all, all.len() as int);
        }
    }
    out
}

proof fn lemma_busiest_exists(groups: Seq<Seq<NormalizedEvent>>, k: int)
    requires
        k > 0,
    ensures
        busiest(groups, -1, k) >= 0,
    decreases k,
{
    if k > 1 {
        lemma_busiest_exists(groups, k - 1);
    }
}

proof fn lemma_http_targets(spans: Seq<NormalizedEvent>)
    requires
        http_calls(spans).len() > 0,
    ensures
        grouping::groups(HttpTargets {  }, spans).len() > 0,
    decreases spans.len(),
{
    reveal(Seq::filter);
    if spans.len() > 0 {
        let last = spans.last();
        if last.event.event_type is HttpOut {
            let rest = grouping::classes(HttpTargets {  }, spans.drop_last());
            if rest.contains(last.template@) {
                assert(rest.len() > 0);
            }
        } else {
            lemma_http_targets(spans.drop_last());
        }
    }
}

fn chatty_suggestion(endpoint: &str, count: usize, top: &str) -> (r: String)
    ensures
        r@ == chatty_hint(endpoint@, count as nat, top@),
{
    let mut out = String::new();
    out.append("Chatty trace: ");
    out.append(endpoint);
    out.append(" triggers ");
    text::append_decimal(&mut out, count as u64);
    out.append(" inter-service HTTP calls (top: ");
    out.append(top);
    out.append(
        "). Consider aggregating calls with a batch endpoint or a BFF (Backend for Frontend) layer",
    );
    assert(out@ =~= chatty_hint(endpoint@, count as nat, top@));
    out
}

/// Detect chatty service patterns within a trace.
///
/// A trace with more than `min_calls` outbound HTTP calls is reported.
pub fn detect_chatty(trace: &Trace, min_calls: u32) -> (r: Vec<Finding>)
    ensures
        finding::finding_views(r@) == chatty_findings(
            trace.trace_id@,
            trace.spans@,
            min_calls as nat,
        ),
{
    let calls = http_indices(&trace.spans);
    let count = calls.len();
    let mut findings: Vec<Finding> = Vec::new();
    if count as u64 <= min_calls as u64 {
        assert(finding::finding_views(findings@) =~= Seq::empty());
        return findings;
    }
    let targets = grouping::group_items(&HttpTargets {  }, &trace.spans);
    proof {
        lemma_http_targets(trace.spans@);
    }
    let top = top_text(&trace.spans, &targets);
    let first = &trace.spans[calls[0]];
    let endpoint = first.event.source.endpoint.as_str();
    let stamps = measure::timestamps_at(&trace.spans, &calls);
    let (window_ms, first_ts, last_ts) = measure::compute_window_and_bounds(stamps.as_slice());
    let f = Finding {
        finding_type: FindingType::ChattyService,
        severity: fanout::severity_of_excess(count, min_calls),
        trace_id: trace.trace_id.clone(),
        service: first.event.service.clone(),
        grouping: event::copy_grouping(&first.event.grouping),
        source_endpoint: endpoint.to_string(),
        pattern: Pattern {
            template: endpoint.to_string(),
            occurrences: count,
            window_ms,
            distinct_params: targets.len(),
            occurrences_by_service: Vec::new(),
        },
        suggestion: chatty_suggestion(endpoint, count, top.as_str()),
        first_timestamp: first_ts.to_string(),
        last_timestamp: last_ts.to_string(),
        green_impact: None,
        confidence: Confidence::default(),
        classification_method: None,
        code_location: None,
        instrumentation_scopes: Vec::new(),
        suggested_fix: None,
        signature: String::new(),
    };
    assert(finding::service_counts(f.pattern.occurrences_by_service@) =~= Seq::empty());
    assert(event::texts(f.instrumentation_scopes@) =~= Seq::empty());
    findings.push(f);
    assert(finding::finding_views(findings@) =~= seq![findings@[0]@]);
    assert(finding::finding_views(findings@) =~= chatty_findings(
        trace.trace_id@,
        trace.spans@,
        min_calls as nat,
    ));
    findings
}

proof fn lemma_busiest(groups: Seq<Seq<NormalizedEvent>>, skip: int, k: int)
    requires
        0 <= k <= groups.len(),
    ensures
        ({
            let b = busiest(groups, skip, k);
            &&& b == -1 || (0 <= b < k && b != skip)
            &&& forall|i: int|
                0 <= i < k && i != skip ==> b >= 0 && (#[trigger] groups[i]).len()
                    <= groups[b].len() && (i < b ==> groups[i].len() < groups[b].len())
        }),
    decreases k,
{
    if k > 0 {
        lemma_busiest(groups, skip, k - 1);
    }
}

/// The targets that a hint names are the ones with the most calls: first one that no other target
/// exceeds, and then, where there is another target, one that no target but the first exceeds. Of
/// targets with as many calls the one called first comes first.
pub proof fn law_top_targets_have_the_most_calls(groups: Seq<Seq<NormalizedEvent>>) -> (r: (int, int))
    requires
        groups.len() > 0,
    ensures
        0 <= r.0 < groups.len(),
        forall|i: int| 0 <= i < groups.len() ==> (#[trigger] groups[i]).len() <= groups[r.0].len(),
        forall|i: int| 0 <= i < r.0 ==> (#[trigger] groups[i]).len() < groups[r.0].len(),
        groups.len() == 1 ==> top_targets(groups) == groups[r.0][0].template@ + " x"@
            + text::decimal(groups[r.0].len()),
        groups.len() > 1 ==> {
            &&& 0 <= r.1 < groups.len()
            &&& r.1 != r.0
            &&& forall|i: int|
                0 <= i < groups.len() && i != r.0 ==> (#[trigger] groups[i]).len()
                    <= groups[r.1].len()
            &&& forall|i: int|
                0 <= i < r.1 && i != r.0 ==> (#[trigger] groups[i]).len() < groups[r.1].len()
            &&& top_targets(groups) == groups[r.0][0].template@ + " x"@ + text::decimal(
                groups[r.0].len(),
            ) + ", "@ + (groups[r.1][0].template@ + " x"@ + text::decimal(groups[r.1].len()))
        },
{
    let n = groups.len() as int;
    let first = busiest(groups, -1, n);
    lemma_busiest(groups, -1, n);
    assert(groups[0].len() <= groups[first].len());
    let second = busiest(groups, first, n);
    lemma_busiest(groups, first, n);
    if n > 1 {
        let other = if first == 0 {
            1int
        } else {
            0int
        };
        assert(groups[other].len() <= groups[second].len());
    }
    (first, second)
}

/// The targets are those of the outbound HTTP calls: calls that share a template are one target.
pub proof fn law_targets_are_the_called_templates(spans: Seq<NormalizedEvent>, m: int)
    requires
        0 <= m < grouping::groups(HttpTargets {  }, spans).len(),
    ensures
        ({
            let target = grouping::groups(HttpTargets {  }, spans)[m];
            &&& target.len() > 0
            &&& target == spans.filter(
                |s: NormalizedEvent|
                    s.event.event_type is HttpOut && s.template@ == target[0].template@,
            )
        }),
{
    let g = HttpTargets {  };
    let keys = grouping::classes(g, spans);
    assert(keys.contains(keys[m]));
    grouping::lemma_class_members(g, spans, keys[m]);
    let target = grouping::groups(g, spans)[m];
    assert(target == grouping::class_members(g, spans, keys[m]));
    assert(g.key(target[0]) == keys[m]);
    permutation::lemma_filter_same(
        spans,
        grouping::in_class(g, keys[m]),
        |s: NormalizedEvent| s.event.event_type is HttpOut && s.template@ == target[0].template@,
    );
}

} // verus!

//! Fanout detection: identifies parent spans generating excessive child spans.

use crate::detect::finding;
use crate::detect::finding::{
    Confidence, Finding, FindingType, FindingView, Pattern, PatternView, Severity,
};
use crate::detect::grouping;
use crate::detect::indices;
use crate::detect::indices::TraceIndices;
use crate::detect::measure;
use crate::event;
use crate::event::{NormalizedEvent, Trace};
use crate::text;
use vstd::prelude::*;
use vstd::string::*;

verus! {

/// The severity of so many items where `limit` are allowed: critical above three times the limit.
pub open spec fn excess_severity(count: nat, limit: nat) -> Severity {
    if count > 3 * limit {
        Severity::Critical
    } else {
        Severity::Warning
    }
}

/// The severity of so many items where `limit` are allowed.
pub(crate) fn severity_of_excess(count: usize, limit: u32) -> (r: Severity)
    ensures
        r == excess_severity(count as nat, limit as nat),
{
    if count as u64 > 3 * limit as u64 {
        Severity::Critical
    } else {
        Severity::Warning
    }
}

/// The remediation hint for so many children.
pub open spec fn fanout_hint(count: nat, max_fanout: nat) -> Seq<char> {
    "Parent span has "@ + text::decimal(count) + " children (threshold: "@ + text::decimal(
        max_fanout,
    ) + "). Consider batching child operations to reduce fanout."@
}

/// The template of a finding on the children of a parent: the parent's own, or its identifier when
/// the trace lacks it.
pub open spec fn fanout_template(spans: Seq<NormalizedEvent>, parent_id: Seq<char>) -> Seq<char> {
    match indices::span_with_id(spans, parent_id) {
        Some(s) => s.template@,
        None => "parent:"@ + parent_id,
    }
}

/// The finding on the children of one parent, if there are more than `max_fanout` of them.
pub open spec fn fanout_finding(
    trace_id: Seq<char>,
    spans: Seq<NormalizedEvent>,
    children: Seq<usize>,
    max_fanout: nat,
) -> Option<FindingView> {
    let count = children.len();
    if count <= max_fanout {
        None
    } else {
        let parent_id = indices::shared_parent(spans, children);
        let context = indices::context_span(spans, parent_id, spans[children[0] as int]);
        let ts = measure::timestamps(grouping::at_positions(spans, children));
        Some(
            FindingView {
                finding_type: FindingType::ExcessiveFanout,
                severity: excess_severity(count, max_fanout),
                trace_id,
                service: context.event.service@,
                grouping: event::grouping_views(context.event.grouping@),
                source_endpoint: context.event.source.endpoint@,
                pattern: PatternView {
                    template: fanout_template(spans, parent_id),
                    occurrences: count,
                    window_ms: measure::window(ts),
                    distinct_params: count,
                    occurrences_by_service: Seq::empty(),
                },
                suggestion: fanout_hint(count, max_fanout),
                first_timestamp: measure::earliest(ts),
                last_timestamp: measure::latest(ts),
                green_impact: None,
                confidence: Confidence::CiBatch,
                classification_method: None,
                code_location: None,
                instrumentation_scopes: Seq::empty(),
                suggested_fix: None,
                signature: Seq::empty(),
            },
        )
    }
}

/// The fanout findings of a trace, by parent in order of first occurrence.
pub open spec fn fanout_findings(
    trace_id: Seq<char>,
    spans: &Vec<NormalizedEvent>,
    max_fanout: nat,
) -> Seq<FindingView> {
    indices::sibling_groups(spans).filter_map(
        |children: Seq<usize>| fanout_finding(trace_id, spans@, children, max_fanout),
    )
}

fn fanout_suggestion(count: usize, max_fanout: u32) -> (r: String)
    ensures
        r@ == fanout_hint(count as nat, max_fanout as nat),
{
    let mut out = String::new();
    out.append("Parent span has ");
    text::append_decimal(&mut out, count as u64);
    out.append(" children (threshold: ");
    text::append_decimal(&mut out, max_fanout as u64);
    out.append("). Consider batching child operations to reduce fanout.");
    assert(out@ =~= fanout_hint(count as nat, max_fanout as nat));
    out
}

fn template_of(relations: &TraceIndices<'_>, trace: &Trace, parent_id: &str, child: usize) -> (r:
    String)
    requires
        relations.describes(*trace),
        child < trace.spans@.len(),
    ensures
        r@ == fanout_template(trace.spans@, parent_id@),
{
    match relations.position_of(parent_id) {
        Some(_) => {
            proof {
                relations.lemma_known(*trace, parent_id@);
            }
            relations.context(trace, parent_id, child).template.clone()
        },
        None => {
            proof {
                relations.lemma_known(*trace, parent_id@);
            }
            let mut out = String::new();
            out.append("parent:");
            out.append(parent_id);
            assert(out@ =~= "parent:"@ + parent_id@);
            out
        },
    }
}

fn build_fanout_finding(
    trace: &Trace,
    relations: &TraceIndices<'_>,
    k: usize,
    max_fanout: u32,
) -> (r: Option<Finding>)
    requires
        relations.describes(*trace),
        k < relations.children_by_parent@.len(),
    ensures
        ({
            let expected = fanout_finding(
                trace.trace_id@,
                trace.spans@,
                indices::sibling_groups(&trace.spans)[k as int],
                max_fanout as nat,
            );
            match r {
                Some(f) => expected == Some(f@),
                None => expected is None,
            }
        }),
{
    let children = &relations.children_by_parent[k].children;
    let parent_id = relations.children_by_parent[k].parent_id;
    let count = children.len();
    if count as u64 <= max_fanout as u64 {
        return None;
    }
    let context = relations.context(trace, parent_id, children[0]);
    let stamps = measure::timestamps_at(&trace.spans, children);
    let (window_ms, first_ts, last_ts) = measure::compute_window_and_bounds(stamps.as_slice());
    let f = Finding {
        finding_type: FindingType::ExcessiveFanout,
        severity: severity_of_excess(count, max_fanout),
        trace_id: trace.trace_id.clone(),
        service: context.event.service.clone(),
        grouping: event::copy_grouping(&context.event.grouping),
        source_endpoint: context.event.source.endpoint.clone(),
        pattern: Pattern {
            template: template_of(relations, trace, parent_id, children[0]),
            occurrences: count,
            window_ms,
            distinct_params: count,
            occurrences_by_service: Vec::new(),
        },
        suggestion: fanout_suggestion(count, max_fanout),
        first_timestamp: first_ts.to_string(),
        last_timestamp: last_ts.to_string(),
        green_impact: None,
        confidence: Confidence::default(),
        classification_method: None,
        code_location: None,
        instrumentation_scopes: Vec::new(),
        suggested_fix: None,
        signature: String::new(),
    };
    assert(finding::service_counts(f.pattern.occurrences_by_service@) =~= Seq::empty());
    assert(event::texts(f.instrumentation_scopes@) =~= Seq::empty());
    Some(f)
}

/// Detect excessive fanout within a trace.
///
/// A parent span with more than `max_fanout` children is reported.
pub fn detect_fanout(trace: &Trace, max_fanout: u32) -> (r: Vec<Finding>)
    ensures
        finding::finding_views(r@) == fanout_findings(
            trace.trace_id@,
            &trace.spans,
            max_fanout as nat,
        ),
{
    let relations = TraceIndices::build(trace);
    detect_fanout_indexed(trace, &relations, max_fanout)
}

/// Detect excessive fanout within a trace whose relations are known.
pub fn detect_fanout_indexed(
    trace: &Trace,
    relations: &TraceIndices<'_>,
    max_fanout: u32,
) -> (r: Vec<Finding>)
    requires
        relations.describes(*trace),
    ensures
        finding::finding_views(r@) == fanout_findings(
            trace.trace_id@,
            &trace.spans,
            max_fanout as nat,
        ),
{
    let ghost f = |children: Seq<usize>|
        fanout_finding(trace.trace_id@, trace.spans@, children, max_fanout as nat);
    let ghost all = indices::sibling_groups(&trace.spans);
    let mut findings: Vec<Finding> = Vec::new();
    let mut k: usize = 0;
    assert(finding::finding_views(findings@) =~= all.take(0).filter_map(f));
    while k < relations.children_by_parent.len()
        invariant
            k <= relations.children_by_parent@.len(),
            relations.describes(*trace),
            all == indices::sibling_groups(&trace.spans),
            f == (|children: Seq<usize>|
                fanout_finding(trace.trace_id@, trace.spans@, children, max_fanout as nat)),
            finding::finding_views(findings@) == all.take(k as int).filter_map(f),
        decreases relations.children_by_parent@.len() - k,
    {
        let ghost before = findings@;
        proof {
            assert(all.take(k + 1).drop_last() =~= all.take(k as int));
            assert(all.take(k + 1).last() == all[k as int]);
        }
        if let Some(finding) = build_fanout_finding(trace, relations, k, max_fanout) {
            findings.push(finding);
            assert(finding::finding_views(findings@) =~= finding::finding_views(before).push(
                finding@,
            ));
        }
        assert(finding::finding_views(findings@) =~= all.take(k + 1).filter_map(f));
        k += 1;
    }
    assert(all.take(k as int) =~= all);
    findings
}

} // verus!

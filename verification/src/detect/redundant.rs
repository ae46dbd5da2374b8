//! Redundant query/call detection.
//!
//! Detects exact duplicate operations within a single trace: same normalized template and same
//! parameters.

use crate::detect::finding;
use crate::detect::finding::{
    Confidence, Finding, FindingType, FindingView, Pattern, PatternView, ServiceCount, Severity,
};
use crate::detect::grouping;
use crate::detect::grouping::Classifier;
use crate::detect::measure;
use crate::event;
use crate::event::{EventType, NormalizedEvent, Trace};
use crate::permutation;
use crate::text;
use vstd::prelude::*;
use vstd::string::*;

verus! {

/// The operations of a trace by kind, template, parameters and grouping attribute; session setup
/// commands, issued once per connection checkout, take no part.
pub struct ExactDuplicates {}

impl Classifier<NormalizedEvent> for ExactDuplicates {
    type Key = (EventType, Seq<char>, Seq<Seq<char>>, Option<(Seq<char>, Seq<char>)>);

    open spec fn judges(&self, span: NormalizedEvent) -> bool {
        true
    }

    open spec fn included(&self, span: NormalizedEvent) -> bool {
        !(span.event.event_type is Sql && span.session_command)
    }

    open spec fn key(&self, span: NormalizedEvent) -> (
        EventType,
        Seq<char>,
        Seq<Seq<char>>,
        Option<(Seq<char>, Seq<char>)>,
    ) {
        (
            span.event.event_type,
            span.template@,
            event::texts(span.params@),
            span.event.identity(),
        )
    }

    fn includes(&self, span: &NormalizedEvent) -> (r: bool) {
        !(span.event.event_type == EventType::Sql && span.session_command)
    }

    fn same_key(&self, a: &NormalizedEvent, b: &NormalizedEvent) -> (r: bool) {
        a.event.event_type == b.event.event_type && a.template == b.template
            && measure::same_texts(&a.params, &b.params) && a.event.same_grouping(&b.event)
    }
}

/// A tally by service name with one more occurrence of `service`.
pub open spec fn counted(
    tally: Seq<(Seq<char>, nat)>,
    service: Seq<char>,
) -> Seq<(Seq<char>, nat)>
    decreases tally.len(),
{
    if tally.len() == 0 {
        seq![(service, 1nat)]
    } else if tally.last().0 == service {
        tally.drop_last().push((service, tally.last().1 + 1))
    } else if text::text_lt(service, tally.last().0) {
        counted(tally.drop_last(), service).push(tally.last())
    } else {
        tally.push((service, 1nat))
    }
}

/// How many spans of a group each service emitted, by service name.
pub open spec fn service_tally(group: Seq<NormalizedEvent>) -> Seq<(Seq<char>, nat)>
    decreases group.len(),
{
    if group.len() == 0 {
        Seq::empty()
    } else {
        counted(service_tally(group.drop_last()), group.last().event.service@)
    }
}

/// The tally of a group to which several services contributed; empty for a single service.
pub open spec fn service_split(group: Seq<NormalizedEvent>) -> Seq<(Seq<char>, nat)> {
    if service_tally(group).len() <= 1 {
        Seq::empty()
    } else {
        service_tally(group)
    }
}

/// Whether an N+1 finding already reports the operation of a span.
pub open spec fn claims(f: FindingView, span: NormalizedEvent) -> bool {
    &&& f.finding_type == FindingType::n_plus_one(span.event.event_type)
    &&& f.pattern.template == span.template@
    &&& f.identity() == span.event.identity()
}

/// Whether any of the N+1 findings already reports the operation of a span.
pub open spec fn claimed(n_plus_one: Seq<FindingView>, span: NormalizedEvent) -> bool {
    exists|i: int| 0 <= i < n_plus_one.len() && claims(#[trigger] n_plus_one[i], span)
}

/// The remediation hint for so many duplicates.
pub open spec fn duplicate_hint(occurrences: nat) -> Seq<char> {
    "Identical operation executed "@ + text::decimal(occurrences)
        + " times: cache result or deduplicate"@
}

/// The finding on a group of identical operations, if there are two or more of them and no N+1
/// finding claims them.
pub open spec fn redundant_finding(
    trace_id: Seq<char>,
    group: Seq<NormalizedEvent>,
    n_plus_one: Seq<FindingView>,
) -> Option<FindingView> {
    if group.len() < 2 || claimed(n_plus_one, group[0]) {
        None
    } else {
        let ts = measure::timestamps(group);
        Some(
            FindingView {
                finding_type: FindingType::redundant(group[0].event.event_type),
                severity: if group.len() >= 5 {
                    Severity::Warning
                } else {
                    Severity::Info
                },
                trace_id,
                service: group[0].event.service@,
                grouping: event::grouping_views(group[0].event.grouping@),
                source_endpoint: group[0].event.source.endpoint@,
                pattern: PatternView {
                    template: group[0].template@,
                    occurrences: group.len(),
                    window_ms: measure::window(ts),
                    distinct_params: 1,
                    occurrences_by_service: service_split(group),
                },
                suggestion: duplicate_hint(group.len()),
                first_timestamp: measure::earliest(ts),
                last_timestamp: measure::latest(ts),
                green_impact: None,
                confidence: Confidence::CiBatch,
                classification_method: None,
                code_location: group[0].event.location(),
                instrumentation_scopes: event::texts(group[0].event.instrumentation_scopes@),
                suggested_fix: None,
                signature: Seq::empty(),
            },
        )
    }
}

/// The redundant findings of a trace, in order of first occurrence.
pub open spec fn redundant_findings(
    trace_id: Seq<char>,
    spans: Seq<NormalizedEvent>,
    n_plus_one: Seq<FindingView>,
) -> Seq<FindingView> {
    grouping::groups(ExactDuplicates {  }, spans).filter_map(
        |group: Seq<NormalizedEvent>| redundant_finding(trace_id, group, n_plus_one),
    )
}

/// The identifiers of the spans of a group.
pub open spec fn span_ids(group: Seq<NormalizedEvent>) -> Seq<Seq<char>> {
    group.map_values(|s: NormalizedEvent| s.event.span_id@)
}

/// The finding on a group together with the identifiers of its spans, or with none.
pub open spec fn redundant_evidence(
    trace_id: Seq<char>,
    group: Seq<NormalizedEvent>,
    n_plus_one: Seq<FindingView>,
    collect_spans: bool,
) -> Option<(FindingView, Seq<Seq<char>>)> {
    match redundant_finding(trace_id, group, n_plus_one) {
        Some(f) => Some(
            (
                f,
                if collect_spans {
                    span_ids(group)
                } else {
                    Seq::empty()
                },
            ),
        ),
        None => None,
    }
}

/// The value of a finding with span identifiers.
pub open spec fn evidence_view(e: (Finding, Vec<&str>)) -> (FindingView, Seq<Seq<char>>) {
    (e.0@, e.1@.map_values(|t: &str| t@))
}

/// The values of findings with span identifiers.
pub open spec fn evidence_views(s: Seq<(Finding, Vec<&str>)>) -> Seq<(FindingView, Seq<Seq<char>>)> {
    s.map_values(|e: (Finding, Vec<&str>)| evidence_view(e))
}

proof fn lemma_counted_position(
    tally: Seq<(Seq<char>, nat)>,
    service: Seq<char>,
    p: int,
)
    requires
        0 <= p <= tally.len(),
        forall|k: int| p <= k < tally.len() ==> text::text_lt(service, (#[trigger] tally[k]).0),
        p == 0 || !text::text_lt(service, tally[p - 1].0),
    ensures
        counted(tally, service) == (if p > 0 && tally[p - 1].0 == service {
            tally.update(p - 1, (service, tally[p - 1].1 + 1))
        } else {
            tally.insert(p, (service, 1nat))
        }),
    decreases tally.len(),
{
    if tally.len() > 0 {
        let rest = tally.drop_last();
        if p < tally.len() {
            assert(text::text_lt(service, tally[tally.len() - 1].0));
            text::lemma_text_lt_irreflexive(service);
            lemma_counted_position(rest, service, p);
            if p > 0 && tally[p - 1].0 == service {
                assert(counted(tally, service) =~= tally.update(
                    p - 1,
                    (service, tally[p - 1].1 + 1),
                ));
            } else {
                assert(counted(tally, service) =~= tally.insert(p, (service, 1nat)));
            }
        } else {
            if tally.last().0 == service {
                assert(counted(tally, service) =~= tally.update(
                    p - 1,
                    (service, tally[p - 1].1 + 1),
                ));
            } else {
                assert(counted(tally, service) =~= tally.insert(p, (service, 1nat)));
            }
        }
    } else {
        assert(counted(tally, service) =~= tally.insert(0, (service, 1nat)));
    }
}

/// The sum of the counts of a tally.
pub open spec fn tally_total(tally: Seq<(Seq<char>, nat)>) -> nat
    decreases tally.len(),
{
    if tally.len() == 0 {
        0
    } else {
        tally_total(tally.drop_last()) + tally.last().1
    }
}

proof fn lemma_counted_total(tally: Seq<(Seq<char>, nat)>, service: Seq<char>)
    ensures
        tally_total(counted(tally, service)) == tally_total(tally) + 1,
    decreases tally.len(),
{
    if tally.len() == 0 {
        assert(seq![(service, 1nat)].drop_last() =~= Seq::<(Seq<char>, nat)>::empty());
        assert(tally_total(seq![(service, 1nat)].drop_last()) == 0);
    } else if tally.last().0 == service {
        let r = counted(tally, service);
        assert(r.drop_last() =~= tally.drop_last());
    } else if text::text_lt(service, tally.last().0) {
        lemma_counted_total(tally.drop_last(), service);
        let r = counted(tally, service);
        assert(r.drop_last() =~= counted(tally.drop_last(), service));
    } else {
        let r = counted(tally, service);
        assert(r.drop_last() =~= tally);
    }
}

/// The occurrences per service add up to the occurrences of the group.
pub proof fn law_service_tally_adds_up(group: Seq<NormalizedEvent>)
    ensures
        tally_total(service_tally(group)) == group.len(),
    decreases group.len(),
{
    if group.len() > 0 {
        law_service_tally_adds_up(group.drop_last());
        lemma_counted_total(
            service_tally(group.drop_last()),
            group.last().event.service@,
        );
    }
}

proof fn lemma_entry_bound(tally: Seq<(Seq<char>, nat)>, k: int)
    requires
        0 <= k < tally.len(),
    ensures
        tally[k].1 <= tally_total(tally),
    decreases tally.len(),
{
    if k < tally.len() - 1 {
        lemma_entry_bound(tally.drop_last(), k);
    }
}

/// How many of the indexed spans each service emitted, by service name; empty when a single
/// service emitted them all.
pub(crate) fn occurrences_by_service(trace: &Trace, indices: &Vec<usize>) -> (r: Vec<ServiceCount>)
    requires
        forall|k: int| 0 <= k < indices@.len() ==> #[trigger] indices@[k] < trace.spans@.len(),
    ensures
        finding::service_counts(r@) == service_split(
            grouping::at_positions(trace.spans@, indices@),
        ),
{
    let ghost group = grouping::at_positions(trace.spans@, indices@);
    let n = indices.len();
    let mut tally: Vec<ServiceCount> = Vec::new();
    let mut i: usize = 0;
    assert(finding::service_counts(tally@) =~= service_tally(group.take(0)));
    while i < n
        invariant
            i <= n,
            n == indices@.len(),
            forall|k: int| 0 <= k < indices@.len() ==> #[trigger] indices@[k] < trace.spans@.len(),
            group == grouping::at_positions(trace.spans@, indices@),
            finding::service_counts(tally@) == service_tally(group.take(i as int)),
        decreases n - i,
    {
        let service = &trace.spans[indices[i]].event.service;
        let ghost before = finding::service_counts(tally@);
        let mut p: usize = tally.len();
        while p > 0 && text::precedes(service.as_str(), tally[p - 1].service.as_str())
            invariant
                p <= tally@.len(),
                before == finding::service_counts(tally@),
                forall|k: int|
                    p <= k < before.len() ==> text::text_lt(service@, (#[trigger] before[k]).0),
            decreases p,
        {
            p -= 1;
        }
        proof {
            lemma_counted_position(before, service@, p as int);
            law_service_tally_adds_up(group.take(i as int));
            if p > 0 {
                lemma_entry_bound(before, p - 1);
            }
            assert(group.take(i + 1).drop_last() =~= group.take(i as int));
            assert(group.take(i + 1).last() == trace.spans@[indices@[i as int] as int]);
        }
        if p > 0 && tally[p - 1].service == *service {
            let count = tally[p - 1].count;
            tally.set(p - 1, ServiceCount { service: service.clone(), count: count + 1 });
            assert(finding::service_counts(tally@) =~= before.update(
                p - 1,
                (service@, before[p - 1].1 + 1),
            ));
        } else {
            tally.insert(p, ServiceCount { service: service.clone(), count: 1 });
            assert(finding::service_counts(tally@) =~= before.insert(p as int, (service@, 1nat)));
        }
        i += 1;
    }
    assert(group.take(i as int) =~= group);
    if tally.len() <= 1 {
        let none: Vec<ServiceCount> = Vec::new();
        assert(finding::service_counts(none@) =~= Seq::empty());
        none
    } else {
        tally
    }
}

/// The identifiers of the indexed spans, when they are wanted.
pub(crate) fn member_span_ids<'a>(
    trace: &'a Trace,
    indices: &Vec<usize>,
    collect_spans: bool,
) -> (r: Vec<&'a str>)
    requires
        forall|k: int| 0 <= k < indices@.len() ==> #[trigger] indices@[k] < trace.spans@.len(),
    ensures
        r@.map_values(|t: &str| t@) == (if collect_spans {
            span_ids(grouping::at_positions(trace.spans@, indices@))
        } else {
            Seq::empty()
        }),
{
    let mut out: Vec<&'a str> = Vec::new();
    if !collect_spans {
        assert(out@.map_values(|t: &str| t@) =~= Seq::<Seq<char>>::empty());
        return out;
    }
    let mut i: usize = 0;
    while i < indices.len()
        invariant
            i <= indices@.len(),
            forall|k: int| 0 <= k < indices@.len() ==> #[trigger] indices@[k] < trace.spans@.len(),
            out@.len() == i,
            forall|k: int|
                0 <= k < i ==> (#[trigger] out@[k])@
                    == trace.spans@[indices@[k] as int].event.span_id@,
        decreases indices@.len() - i,
    {
        out.push(trace.spans[indices[i]].event.span_id.as_str());
        i += 1;
    }
    assert(out@.map_values(|t: &str| t@) =~= span_ids(
        grouping::at_positions(trace.spans@, indices@),
    ));
    out
}

fn already_claimed(n_plus_one_findings: &[Finding], span: &NormalizedEvent) -> (r: bool)
    ensures
        r == claimed(finding::finding_views(n_plus_one_findings@), *span),
{
    let ghost views = finding::finding_views(n_plus_one_findings@);
    let wanted = FindingType::from_event_type_n_plus_one(&span.event.event_type);
    let mut i: usize = 0;
    while i < n_plus_one_findings.len()
        invariant
            i <= n_plus_one_findings@.len(),
            views == finding::finding_views(n_plus_one_findings@),
            wanted == FindingType::n_plus_one(span.event.event_type),
            forall|k: int| 0 <= k < i ==> !claims(#[trigger] views[k], *span),
        decreases n_plus_one_findings@.len() - i,
    {
        let f = &n_plus_one_findings[i];
        assert(views[i as int] == f@);
        if f.finding_type == wanted && f.pattern.template == span.template
            && event::same_effective(&f.grouping, &span.event.grouping) {
            assert(claims(views[i as int], *span));
            return true;
        }
        i += 1;
    }
    false
}

fn duplicate_suggestion(occurrences: usize) -> (r: String)
    ensures
        r@ == duplicate_hint(occurrences as nat),
{
    let mut out = String::new();
    out.append("Identical operation executed ");
    text::append_decimal(&mut out, occurrences as u64);
    out.append(" times: cache result or deduplicate");
    assert(out@ =~= duplicate_hint(occurrences as nat));
    out
}

fn build_redundant_finding(
    trace: &Trace,
    indices: &Vec<usize>,
    n_plus_one_findings: &[Finding],
) -> (r: Option<Finding>)
    requires
        forall|k: int| 0 <= k < indices@.len() ==> #[trigger] indices@[k] < trace.spans@.len(),
        indices@.len() > 0,
    ensures
        ({
            let expected = redundant_finding(
                trace.trace_id@,
                grouping::at_positions(trace.spans@, indices@),
                finding::finding_views(n_plus_one_findings@),
            );
            match r {
                Some(f) => expected == Some(f@),
                None => expected is None,
            }
        }),
{
    if indices.len() < 2 {
        return None;
    }
    let first = &trace.spans[indices[0]];
    if already_claimed(n_plus_one_findings, first) {
        return None;
    }
    let severity = if indices.len() >= 5 {
        Severity::Warning
    } else {
        Severity::Info
    };
    let stamps = measure::timestamps_at(&trace.spans, indices);
    let (window_ms, min_ts, max_ts) = measure::compute_window_and_bounds(stamps.as_slice());
    Some(
        Finding {
            finding_type: FindingType::from_event_type_redundant(&first.event.event_type),
            severity,
            trace_id: trace.trace_id.clone(),
            service: first.event.service.clone(),
            grouping: event::copy_grouping(&first.event.grouping),
            source_endpoint: first.event.source.endpoint.clone(),
            pattern: Pattern {
                template: first.template.clone(),
                occurrences: indices.len(),
                window_ms,
                distinct_params: 1,
                occurrences_by_service: occurrences_by_service(trace, indices),
            },
            suggestion: duplicate_suggestion(indices.len()),
            first_timestamp: min_ts.to_string(),
            last_timestamp: max_ts.to_string(),
            green_impact: None,
            confidence: Confidence::default(),
            classification_method: None,
            code_location: first.event.code_location(),
            instrumentation_scopes: first.event.instrumentation_scopes.clone(),
            suggested_fix: None,
            signature: String::new(),
        },
    )
}

fn redundant_impl<'a>(
    trace: &'a Trace,
    n_plus_one_findings: &[Finding],
    collect_spans: bool,
) -> (r: Vec<(Finding, Vec<&'a str>)>)
    ensures
        evidence_views(r@) == grouping::groups(ExactDuplicates {  }, trace.spans@).filter_map(
            |group: Seq<NormalizedEvent>|
                redundant_evidence(
                    trace.trace_id@,
                    group,
                    finding::finding_views(n_plus_one_findings@),
                    collect_spans,
                ),
        ),
{
    let ghost views = finding::finding_views(n_plus_one_findings@);
    let ghost f = |group: Seq<NormalizedEvent>|
        redundant_evidence(trace.trace_id@, group, views, collect_spans);
    let ghost all = grouping::groups(ExactDuplicates {  }, trace.spans@);
    let groups = grouping::group_items(&ExactDuplicates {  }, &trace.spans);
    let mut findings: Vec<(Finding, Vec<&'a str>)> = Vec::new();
    let mut k: usize = 0;
    assert(evidence_views(findings@) =~= all.take(0).filter_map(f));
    while k < groups.len()
        invariant
            k <= groups@.len(),
            groups@.len() == all.len(),
            views == finding::finding_views(n_plus_one_findings@),
            f == (|group: Seq<NormalizedEvent>|
                redundant_evidence(trace.trace_id@, group, views, collect_spans)),
            forall|m: int|
                0 <= m < groups@.len() ==> grouping::at_positions(
                    trace.spans@,
                    (#[trigger] groups@[m])@,
                ) == all[m],
            forall|m: int|
                0 <= m < groups@.len() ==> grouping::ascending_positions(
                    (#[trigger] groups@[m])@,
                    trace.spans@.len(),
                ) && groups@[m]@.len() > 0,
            evidence_views(findings@) == all.take(k as int).filter_map(f),
        decreases groups@.len() - k,
    {
        let indices = &groups[k];
        let ghost before = findings@;
        let ghost group = grouping::at_positions(trace.spans@, indices@);
        proof {
            assert(all.take(k + 1).drop_last() =~= all.take(k as int));
            assert(all.take(k + 1).last() == group);
        }
        if let Some(finding) = build_redundant_finding(trace, indices, n_plus_one_findings) {
            let ids = member_span_ids(trace, indices, collect_spans);
            findings.push((finding, ids));
            proof {
                assert(f(group) == Some(evidence_view(findings@.last())));
                assert(evidence_views(findings@) =~= evidence_views(before).push(
                    evidence_view(findings@.last()),
                ));
            }
        }
        assert(evidence_views(findings@) =~= all.take(k + 1).filter_map(f));
        k += 1;
    }
    assert(all.take(k as int) =~= all);
    findings
}

proof fn lemma_evidence_findings(
    groups: Seq<Seq<NormalizedEvent>>,
    trace_id: Seq<char>,
    n_plus_one: Seq<FindingView>,
)
    ensures
        groups.filter_map(
            |group: Seq<NormalizedEvent>| redundant_evidence(trace_id, group, n_plus_one, false),
        ).map_values(|e: (FindingView, Seq<Seq<char>>)| e.0) == groups.filter_map(
            |group: Seq<NormalizedEvent>| redundant_finding(trace_id, group, n_plus_one),
        ),
    decreases groups.len(),
{
    let f = |group: Seq<NormalizedEvent>| redundant_evidence(trace_id, group, n_plus_one, false);
    let g = |group: Seq<NormalizedEvent>| redundant_finding(trace_id, group, n_plus_one);
    let h = |e: (FindingView, Seq<Seq<char>>)| e.0;
    if groups.len() > 0 {
        lemma_evidence_findings(groups.drop_last(), trace_id, n_plus_one);
        let rest = groups.drop_last().filter_map(f);
        match f(groups.last()) {
            Some(e) => {
                assert((rest + seq![e]).map_values(h) =~= rest.map_values(h) + seq![e.0]);
            },
            None => {},
        }
    } else {
        assert(groups.filter_map(f).map_values(h) =~= groups.filter_map(g));
    }
}

/// Detect redundant (exact duplicate) operations in a single trace.
///
/// An operation that one of the given N+1 findings of the trace already reports is skipped, so that
/// nothing is reported twice.
pub fn detect_redundant(trace: &Trace, n_plus_one_findings: &[Finding]) -> (r: Vec<Finding>)
    ensures
        finding::finding_views(r@) == redundant_findings(
            trace.trace_id@,
            trace.spans@,
            finding::finding_views(n_plus_one_findings@),
        ),
{
    let found = redundant_impl(trace, n_plus_one_findings, false);
    let ghost all = evidence_views(found@);
    let ghost pairs = found@;
    let mut out: Vec<Finding> = Vec::new();
    for pair in it: found
        invariant
            it.seq() == pairs,
            out@.len() == it.index(),
            forall|k: int| 0 <= k < out@.len() ==> #[trigger] out@[k] == pairs[k].0,
    {
        out.push(pair.0);
    }
    proof {
        lemma_evidence_findings(
            grouping::groups(ExactDuplicates {  }, trace.spans@),
            trace.trace_id@,
            finding::finding_views(n_plus_one_findings@),
        );
        assert(finding::finding_views(out@) =~= all.map_values(
            |e: (FindingView, Seq<Seq<char>>)| e.0,
        ));
    }
    out
}

/// The same detection, with the identifiers of the duplicate spans.
pub fn detect_redundant_with_spans<'a>(
    trace: &'a Trace,
    n_plus_one_findings: &[Finding],
) -> (r: Vec<(Finding, Vec<&'a str>)>)
    ensures
        evidence_views(r@) == grouping::groups(ExactDuplicates {  }, trace.spans@).filter_map(
            |group: Seq<NormalizedEvent>|
                redundant_evidence(
                    trace.trace_id@,
                    group,
                    finding::finding_views(n_plus_one_findings@),
                    true,
                ),
        ),
{
    redundant_impl(trace, n_plus_one_findings, true)
}

/// Where several services contribute to a group, each is listed once, by name, with the number of
/// its own spans; a single service is not listed.
pub proof fn law_split_counts_the_spans_of_each_service(group: Seq<NormalizedEvent>)
    ensures
        ({
            let split = service_split(group);
            let one_service = forall|i: int, j: int|
                0 <= i < group.len() && 0 <= j < group.len()
                    ==> (#[trigger] group[i]).event.service@ == (
                #[trigger] group[j]).event.service@;
            &&& split.len() == 0 <==> one_service
            &&& forall|a: int, b: int|
                0 <= a < b < split.len() ==> text::text_lt(
                    (#[trigger] split[a]).0,
                    (#[trigger] split[b]).0,
                )
            &&& forall|a: int|
                0 <= a < split.len() ==> (#[trigger] split[a]).1 == group.filter(
                    |s: NormalizedEvent| s.event.service@ == split[a].0,
                ).len() && split[a].1 > 0
            &&& split.len() > 0 ==> forall|i: int|
                0 <= i < group.len() ==> exists|a: int|
                    0 <= a < split.len() && (#[trigger] split[a]).0 == (
                    #[trigger] group[i]).event.service@
        }),
{
    lemma_tally(group);
    let tally = service_tally(group);
    if tally.len() >= 2 {
        assert(text::text_lt(tally[0].0, tally[1].0));
        text::lemma_text_lt_irreflexive(tally[0].0);
        lemma_tally_names(group, 0);
        lemma_tally_names(group, 1);
        let i = choose|i: int|
            0 <= i < group.len() && (#[trigger] group[i]).event.service@ == tally[0].0;
        let j = choose|j: int|
            0 <= j < group.len() && (#[trigger] group[j]).event.service@ == tally[1].0;
        assert(group[i].event.service@ != group[j].event.service@);
    } else {
        assert forall|i: int, j: int| 0 <= i < group.len() && 0 <= j < group.len() implies (
        #[trigger] group[i]).event.service@ == (#[trigger] group[j]).event.service@ by {
            let a = choose|a: int|
                0 <= a < tally.len() && (#[trigger] tally[a]).0 == group[i].event.service@;
            let b = choose|b: int|
                0 <= b < tally.len() && (#[trigger] tally[b]).0 == group[j].event.service@;
            assert(a == b);
        }
    }
}

proof fn lemma_tally_names(group: Seq<NormalizedEvent>, a: int)
    requires
        0 <= a < service_tally(group).len(),
    ensures
        exists|i: int|
            0 <= i < group.len() && (#[trigger] group[i]).event.service@ == service_tally(
                group,
            )[a].0,
{
    lemma_tally(group);
    let name = service_tally(group)[a].0;
    let own = |s: NormalizedEvent| s.event.service@ == name;
    let part = group.filter(own);
    let tally = service_tally(group);
    permutation::lemma_filter_same(
        group,
        own,
        |s: NormalizedEvent| s.event.service@ == tally[a].0,
    );
    assert(tally[a].1 > 0);
    assert(part.contains(part[0]));
    permutation::lemma_filter_contains(group, own, part[0]);
    let i = choose|i: int| 0 <= i < group.len() && group[i] == part[0];
    assert(group[i].event.service@ == name);
}

proof fn lemma_tally(group: Seq<NormalizedEvent>)
    ensures
        ({
            let tally = service_tally(group);
            &&& forall|a: int, b: int|
                0 <= a < b < tally.len() ==> text::text_lt(
                    (#[trigger] tally[a]).0,
                    (#[trigger] tally[b]).0,
                )
            &&& forall|a: int|
                0 <= a < tally.len() ==> (#[trigger] tally[a]).1 == group.filter(
                    |s: NormalizedEvent| s.event.service@ == tally[a].0,
                ).len() && tally[a].1 > 0
            &&& forall|i: int|
                0 <= i < group.len() ==> exists|a: int|
                    0 <= a < tally.len() && (#[trigger] tally[a]).0 == (
                    #[trigger] group[i]).event.service@
        }),
    decreases group.len(),
{
    reveal(Seq::filter);
    if group.len() > 0 {
        let rest = group.drop_last();
        let x = group.last().event.service@;
        let before = service_tally(rest);
        let tally = service_tally(group);
        lemma_tally(rest);
        let p = lemma_counted_place(before, x);
        lemma_counted_position(before, x, p);
        if p > 0 && before[p - 1].0 == x {
            assert forall|a: int| 0 <= a < tally.len() implies (#[trigger] tally[a]).1
                == group.filter(|s: NormalizedEvent| s.event.service@ == tally[a].0).len()
                && tally[a].1 > 0 by {
                assert(tally[a].0 == before[a].0);
                let own = |s: NormalizedEvent| s.event.service@ == tally[a].0;
                assert(rest.filter(own) == rest.filter(
                    |s: NormalizedEvent| s.event.service@ == before[a].0,
                ));
                if a != p - 1 {
                    text::lemma_text_lt_irreflexive(x);
                    if a < p - 1 {
                        assert(text::text_lt(before[a].0, before[p - 1].0));
                    } else {
                        assert(text::text_lt(before[p - 1].0, before[a].0));
                    }
                }
            }
            assert forall|a: int, b: int| 0 <= a < b < tally.len() implies text::text_lt(
                (#[trigger] tally[a]).0,
                (#[trigger] tally[b]).0,
            ) by {
                assert(tally[a].0 == before[a].0 && tally[b].0 == before[b].0);
            }
            assert forall|i: int| 0 <= i < group.len() implies exists|a: int|
                0 <= a < tally.len() && (#[trigger] tally[a]).0 == (
                #[trigger] group[i]).event.service@ by {
                if i < rest.len() {
                    assert(rest[i] == group[i]);
                    let a = choose|a: int|
                        0 <= a < before.len() && (#[trigger] before[a]).0 == rest[i].event.service@;
                    assert(tally[a].0 == before[a].0);
                } else {
                    assert(tally[p - 1].0 == x);
                }
            }
        } else {
            let own_x = |s: NormalizedEvent| s.event.service@ == x;
            assert(rest.filter(own_x).len() == 0) by {
                if rest.filter(own_x).len() > 0 {
                    let s = rest.filter(own_x)[0];
                    assert(rest.filter(own_x).contains(s));
                    permutation::lemma_filter_contains(rest, own_x, s);
                    let i = choose|i: int| 0 <= i < rest.len() && rest[i] == s;
                    let a = choose|a: int|
                        0 <= a < before.len() && (#[trigger] before[a]).0 == rest[i].event.service@;
                    text::lemma_text_lt_irreflexive(x);
                    if a < p - 1 {
                        assert(text::text_lt(before[a].0, before[p - 1].0));
                    }
                }
            }
            assert forall|a: int| 0 <= a < tally.len() implies (#[trigger] tally[a]).1
                == group.filter(|s: NormalizedEvent| s.event.service@ == tally[a].0).len()
                && tally[a].1 > 0 by {
                let own = |s: NormalizedEvent| s.event.service@ == tally[a].0;
                if a == p {
                    assert(tally[a] == (x, 1nat));
                    permutation::lemma_filter_same(rest, own, own_x);
                } else {
                    let m = if a < p {
                        a
                    } else {
                        a - 1
                    };
                    assert(tally[a] == before[m]);
                    assert(rest.filter(own) == rest.filter(
                        |s: NormalizedEvent| s.event.service@ == before[m].0,
                    ));
                    text::lemma_text_lt_irreflexive(x);
                    if a < p - 1 {
                        assert(text::text_lt(before[a].0, before[p - 1].0));
                    }
                }
            }
            assert forall|a: int, b: int| 0 <= a < b < tally.len() implies text::text_lt(
                (#[trigger] tally[a]).0,
                (#[trigger] tally[b]).0,
            ) by {
                if p > 0 {
                    text::lemma_text_lt_total(before[p - 1].0, x);
                }
                if b == p && a < p - 1 {
                    text::lemma_text_lt_transitive(before[a].0, before[p - 1].0, x);
                }
            }
            assert forall|i: int| 0 <= i < group.len() implies exists|a: int|
                0 <= a < tally.len() && (#[trigger] tally[a]).0 == (
                #[trigger] group[i]).event.service@ by {
                if i < rest.len() {
                    assert(rest[i] == group[i]);
                    let a = choose|a: int|
                        0 <= a < before.len() && (#[trigger] before[a]).0 == rest[i].event.service@;
                    if a < p {
                        assert(tally[a] == before[a]);
                    } else {
                        assert(tally[a + 1] == before[a]);
                    }
                } else {
                    assert(tally[p].0 == x);
                }
            }
        }
    }
}

proof fn lemma_counted_place(tally: Seq<(Seq<char>, nat)>, service: Seq<char>) -> (p: int)
    requires
        forall|a: int, b: int|
            0 <= a < b < tally.len() ==> text::text_lt(
                (#[trigger] tally[a]).0,
                (#[trigger] tally[b]).0,
            ),
    ensures
        0 <= p <= tally.len(),
        forall|k: int| p <= k < tally.len() ==> text::text_lt(service, (#[trigger] tally[k]).0),
        p == 0 || !text::text_lt(service, tally[p - 1].0),
    decreases tally.len(),
{
    if tally.len() == 0 || !text::text_lt(service, tally.last().0) {
        tally.len() as int
    } else {
        let rest = tally.drop_last();
        assert forall|a: int, b: int| 0 <= a < b < rest.len() implies text::text_lt(
            (#[trigger] rest[a]).0,
            (#[trigger] rest[b]).0,
        ) by {
            assert(rest[a] == tally[a] && rest[b] == tally[b]);
        }
        let p = lemma_counted_place(rest, service);
        assert forall|k: int| p <= k < tally.len() implies text::text_lt(
            service,
            (#[trigger] tally[k]).0,
        ) by {
            if k < rest.len() {
                assert(rest[k] == tally[k]);
            }
        }
        p
    }
}

/// The evidence of a finding names the spans of its group in order, and none where it is not asked
/// for. Asking for it changes no finding.
pub proof fn law_evidence_names_the_spans(
    trace_id: Seq<char>,
    group: Seq<NormalizedEvent>,
    n_plus_one: Seq<FindingView>,
    collect_spans: bool,
)
    ensures
        ({
            let found = redundant_finding(trace_id, group, n_plus_one);
            let told = redundant_evidence(trace_id, group, n_plus_one, collect_spans);
            &&& told is Some <==> found is Some
            &&& found is Some ==> (told->0).0 == found->0
            &&& found is Some && collect_spans ==> (told->0).1 == group.map_values(
                |s: NormalizedEvent| s.event.span_id@,
            )
            &&& found is Some && !collect_spans ==> (told->0).1.len() == 0
        }),
{
    assert(span_ids(group) =~= group.map_values(|s: NormalizedEvent| s.event.span_id@));
}

/// The value of a finding with its evidence tells both.
pub proof fn law_evidence_value_tells_both(s: Seq<(Finding, Vec<&str>)>, i: int)
    requires
        0 <= i < s.len(),
    ensures
        evidence_views(s).len() == s.len(),
        evidence_views(s)[i].0 == s[i].0@,
        evidence_views(s)[i].1 == s[i].1@.map_values(|t: &str| t@),
{
    assert(evidence_views(s)[i].1 =~= s[i].1@.map_values(|t: &str| t@));
}

} // verus!

//! Edge cases of the comparison of two runs.

use sentinel_core::detect::{Confidence, Finding, FindingType, Pattern, Severity};
use sentinel_core::diff::diff_runs;
use sentinel_core::event::GroupingAttribute;
use sentinel_core::report::{PerEndpointIoOps, Report};

fn grouping(key: &str, value: &str) -> Vec<GroupingAttribute> {
    vec![GroupingAttribute { key: key.to_string(), value: value.to_string() }]
}

fn make_finding(finding_type: FindingType, severity: Severity) -> Finding {
    Finding {
        finding_type,
        severity,
        trace_id: "trace-1".to_string(),
        service: "order-svc".to_string(),
        grouping: Vec::new(),
        source_endpoint: "POST /api/orders/{id}/submit".to_string(),
        pattern: Pattern {
            template: "SELECT * FROM order_item WHERE order_id = ?".to_string(),
            occurrences: 6,
            window_ms: 250,
            distinct_params: 6,
            occurrences_by_service: Vec::new(),
        },
        suggestion: "batch".to_string(),
        first_timestamp: "2025-07-10T14:32:01.000Z".to_string(),
        last_timestamp: "2025-07-10T14:32:01.250Z".to_string(),
        green_impact: None,
        confidence: Confidence::default(),
        classification_method: None,
        code_location: None,
        instrumentation_scopes: Vec::new(),
        suggested_fix: None,
        signature: String::new(),
    }
}

fn finding_of(service: &str, severity: Severity, occurrences: usize) -> Finding {
    let mut f = make_finding(FindingType::NPlusOneSql, severity);
    f.service = service.to_string();
    f.pattern.occurrences = occurrences;
    f
}

fn ops(service: &str, endpoint: &str, io_ops: usize) -> PerEndpointIoOps {
    PerEndpointIoOps { service: service.to_string(), endpoint: endpoint.to_string(), io_ops }
}

fn report(findings: Vec<Finding>, per_endpoint_io_ops: Vec<PerEndpointIoOps>) -> Report {
    Report { findings, per_endpoint_io_ops }
}

#[test]
fn the_first_of_the_worst_findings_is_kept() {
    let mut first = finding_of("svc", Severity::Warning, 1);
    first.trace_id = "t1".to_string();
    let mut second = finding_of("svc", Severity::Critical, 2);
    second.trace_id = "t2".to_string();
    let mut third = finding_of("svc", Severity::Critical, 4);
    third.trace_id = "t3".to_string();
    let diff = diff_runs(&report(vec![], vec![]), &report(vec![first, second, third], vec![]));
    assert_eq!(diff.new_findings.len(), 1);
    assert_eq!(diff.new_findings[0].trace_id, "t2");
    assert_eq!(diff.new_findings[0].pattern.occurrences, 7);
}

#[test]
fn summed_occurrences_stop_at_the_largest_count() {
    let after = vec![
        finding_of("svc", Severity::Info, usize::MAX),
        finding_of("svc", Severity::Info, 3),
    ];
    let diff = diff_runs(&report(vec![], vec![]), &report(after, vec![]));
    assert_eq!(diff.new_findings[0].pattern.occurrences, usize::MAX);
}

#[test]
fn findings_listed_alike_go_by_service() {
    let after = vec![
        finding_of("zeta", Severity::Info, 1),
        finding_of("alpha", Severity::Info, 1),
    ];
    let diff = diff_runs(&report(vec![], vec![]), &report(after, vec![]));
    let services: Vec<&str> = diff.new_findings.iter().map(|f| f.service.as_str()).collect();
    assert_eq!(services, ["alpha", "zeta"]);
}

#[test]
fn the_last_entry_of_an_endpoint_counts() {
    let before = vec![ops("svc", "GET /a", 3), ops("svc", "GET /a", 8)];
    let after = vec![ops("svc", "GET /a", 1), ops("svc", "GET /a", 9)];
    let diff = diff_runs(&report(vec![], before), &report(vec![], after));
    assert_eq!(diff.endpoint_metric_deltas.len(), 1);
    assert_eq!(diff.endpoint_metric_deltas[0].before_io_ops, 8);
    assert_eq!(diff.endpoint_metric_deltas[0].after_io_ops, 9);
    assert_eq!(diff.endpoint_metric_deltas[0].delta, 1);
}

#[test]
fn deltas_are_kept_within_range() {
    let huge = vec![ops("svc", "GET /a", usize::MAX)];
    let up = diff_runs(&report(vec![], vec![]), &report(vec![], huge.clone()));
    assert_eq!(up.endpoint_metric_deltas[0].delta, i64::MAX);
    let down = diff_runs(&report(vec![], huge), &report(vec![], vec![]));
    assert_eq!(down.endpoint_metric_deltas[0].delta, i64::MIN);
}

#[test]
fn equal_deltas_go_by_service_and_endpoint() {
    let after = vec![ops("b", "x", 2), ops("a", "y", 2), ops("a", "x", 2), ops("c", "c", 3)];
    let diff = diff_runs(&report(vec![], vec![]), &report(vec![], after));
    let places: Vec<(&str, &str)> = diff
        .endpoint_metric_deltas
        .iter()
        .map(|d| (d.service.as_str(), d.endpoint.as_str()))
        .collect();
    assert_eq!(places, [("c", "c"), ("a", "x"), ("a", "y"), ("b", "x")]);
}

#[test]
fn swapping_the_runs_swaps_the_lists() {
    let one = report(
        vec![
            finding_of("kept", Severity::Warning, 1),
            finding_of("gone", Severity::Info, 1),
            finding_of("same", Severity::Info, 1),
        ],
        vec![ops("svc", "GET /a", 3)],
    );
    let two = report(
        vec![
            finding_of("kept", Severity::Critical, 1),
            finding_of("fresh", Severity::Info, 1),
            finding_of("same", Severity::Info, 9),
        ],
        vec![ops("svc", "GET /a", 5)],
    );
    let there = diff_runs(&one, &two);
    let back = diff_runs(&two, &one);
    assert_eq!(there.new_findings, back.resolved_findings);
    assert_eq!(there.resolved_findings, back.new_findings);
    assert_eq!(there.new_findings[0].service, "fresh");
    assert_eq!(there.severity_changes.len(), 1);
    assert!(there.severity_changes[0].is_regression());
    assert_eq!(back.severity_changes.len(), 1);
    assert!(!back.severity_changes[0].is_regression());
    assert_eq!(there.endpoint_metric_deltas[0].delta, 2);
    assert_eq!(back.endpoint_metric_deltas[0].delta, -2);
}

#[test]
fn swapping_the_runs_turns_every_delta() {
    let one = report(vec![], vec![ops("a", "x", 7), ops("b", "y", 2), ops("c", "z", 1)]);
    let two = report(vec![], vec![ops("a", "x", 3), ops("b", "y", 12), ops("c", "z", 1)]);
    let there = diff_runs(&one, &two).endpoint_metric_deltas;
    let mut back = diff_runs(&two, &one).endpoint_metric_deltas;
    back.reverse();
    assert_eq!(there.len(), 2);
    for (d, r) in there.iter().zip(&back) {
        assert_eq!((&d.service, &d.endpoint), (&r.service, &r.endpoint));
        assert_eq!((d.before_io_ops, d.after_io_ops), (r.after_io_ops, r.before_io_ops));
        assert_eq!(d.delta, -r.delta);
    }
    assert_eq!((there[0].delta, there[1].delta), (10, -4));
}

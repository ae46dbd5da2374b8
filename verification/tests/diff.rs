//! Comparison of two analysis runs.

use sentinel_core::detect::{Confidence, Finding, FindingType, Pattern, Severity};
use sentinel_core::diff::diff_runs;
use sentinel_core::event::GroupingAttribute;
use sentinel_core::report::{PerEndpointIoOps, Report};

fn grouping(key: &str, value: &str) -> Vec<GroupingAttribute> {
    vec![GroupingAttribute { key: key.to_string(), value: value.to_string() }]
}



fn make_report(findings: Vec<Finding>, per_endpoint: Vec<PerEndpointIoOps>) -> Report {
    Report { findings, per_endpoint_io_ops: per_endpoint }
}

fn finding(
    ft: FindingType,
    sev: Severity,
    service: &str,
    endpoint: &str,
    template: &str,
) -> Finding {
    Finding {
        finding_type: ft,
        severity: sev,
        trace_id: "trace-1".to_string(),
        service: service.to_string(),
        grouping: Vec::new(),
        source_endpoint: endpoint.to_string(),
        pattern: Pattern {
            template: template.to_string(),
            occurrences: 6,
            window_ms: 200,
            distinct_params: 6,
            occurrences_by_service: Vec::new(),
        },
        suggestion: "batch".to_string(),
        first_timestamp: "2025-07-10T14:32:01.000Z".to_string(),
        last_timestamp: "2025-07-10T14:32:01.250Z".to_string(),
        green_impact: None,
        confidence: Confidence::default(),
        classification_method: None,
        code_location: None,
        instrumentation_scopes: Vec::new(),
        suggested_fix: None,
        signature: String::new(),
    }
}

fn endpoint(service: &str, ep: &str, ops: usize) -> PerEndpointIoOps {
    PerEndpointIoOps {
        service: service.to_string(),
        endpoint: ep.to_string(),
        io_ops: ops,
    }
}

#[test]
fn identical_runs_produce_empty_diff() {
    let f = finding(
        FindingType::NPlusOneSql,
        Severity::Warning,
        "svc",
        "POST /api",
        "SELECT *",
    );
    let before = make_report(vec![f.clone()], vec![endpoint("svc", "POST /api", 6)]);
    let after = make_report(vec![f], vec![endpoint("svc", "POST /api", 6)]);
    let diff = diff_runs(&before, &after);
    assert!(diff.new_findings.is_empty());
    assert!(diff.resolved_findings.is_empty());
    assert!(diff.severity_changes.is_empty());
    assert!(diff.endpoint_metric_deltas.is_empty());
}

#[test]
fn finding_present_only_in_after_is_new() {
    let before = make_report(vec![], vec![]);
    let after = make_report(
        vec![finding(
            FindingType::NPlusOneSql,
            Severity::Warning,
            "svc",
            "POST /api",
            "SELECT *",
        )],
        vec![],
    );
    let diff = diff_runs(&before, &after);
    assert_eq!(diff.new_findings.len(), 1);
    assert!(diff.resolved_findings.is_empty());
    assert!(diff.severity_changes.is_empty());
}

#[test]
fn finding_present_only_in_before_is_resolved() {
    let before = make_report(
        vec![finding(
            FindingType::NPlusOneSql,
            Severity::Warning,
            "svc",
            "POST /api",
            "SELECT *",
        )],
        vec![],
    );
    let after = make_report(vec![], vec![]);
    let diff = diff_runs(&before, &after);
    assert!(diff.new_findings.is_empty());
    assert_eq!(diff.resolved_findings.len(), 1);
    assert!(diff.severity_changes.is_empty());
}

#[test]
fn same_identity_with_different_severity_is_severity_change() {
    let f_warn = finding(
        FindingType::NPlusOneSql,
        Severity::Warning,
        "svc",
        "POST /api",
        "SELECT *",
    );
    let mut f_crit = f_warn.clone();
    f_crit.severity = Severity::Critical;
    let before = make_report(vec![f_warn], vec![]);
    let after = make_report(vec![f_crit], vec![]);
    let diff = diff_runs(&before, &after);
    assert!(diff.new_findings.is_empty());
    assert!(diff.resolved_findings.is_empty());
    assert_eq!(diff.severity_changes.len(), 1);
    let change = &diff.severity_changes[0];
    assert_eq!(change.before_severity, Severity::Warning);
    assert_eq!(change.after_severity, Severity::Critical);
    assert!(
        change.is_regression(),
        "warning -> critical is a regression"
    );
}

#[test]
fn severity_changes_sorted_regressions_first() {
    let before = make_report(
        vec![
            finding(
                FindingType::NPlusOneSql,
                Severity::Warning,
                "svc-a",
                "POST /a",
                "SELECT a",
            ),
            finding(
                FindingType::NPlusOneSql,
                Severity::Critical,
                "svc-b",
                "POST /b",
                "SELECT b",
            ),
        ],
        vec![],
    );
    let after = make_report(
        vec![
            finding(
                FindingType::NPlusOneSql,
                Severity::Critical,
                "svc-a",
                "POST /a",
                "SELECT a",
            ),
            finding(
                FindingType::NPlusOneSql,
                Severity::Warning,
                "svc-b",
                "POST /b",
                "SELECT b",
            ),
        ],
        vec![],
    );
    let diff = diff_runs(&before, &after);
    assert_eq!(diff.severity_changes.len(), 2);
    assert!(
        diff.severity_changes[0].is_regression(),
        "regression must come first"
    );
    assert!(
        !diff.severity_changes[1].is_regression(),
        "improvement must come last"
    );
}

#[test]
fn duplicate_identity_in_one_run_is_collapsed_to_worst_severity() {
    // Two findings with the same identity tuple in `after`, one at
    // Warning and one at Critical. They should collapse to a single
    // "after" finding at Critical, and the diff should not interpret
    // the count difference as a severity change.
    let before = make_report(
        vec![finding(
            FindingType::NPlusOneSql,
            Severity::Critical,
            "svc",
            "POST /api",
            "SELECT *",
        )],
        vec![],
    );
    let f_warn = finding(
        FindingType::NPlusOneSql,
        Severity::Warning,
        "svc",
        "POST /api",
        "SELECT *",
    );
    let mut f_crit = f_warn.clone();
    f_crit.severity = Severity::Critical;
    let after = make_report(vec![f_warn, f_crit], vec![]);
    let diff = diff_runs(&before, &after);
    assert!(
        diff.new_findings.is_empty(),
        "no new findings when identity is shared"
    );
    assert!(
        diff.resolved_findings.is_empty(),
        "no resolved when identity is shared"
    );
    assert!(
        diff.severity_changes.is_empty(),
        "worst-severity dedupe should make this a no-op (Critical == Critical)"
    );
}

#[test]
fn endpoint_io_ops_increase_is_a_positive_delta() {
    let before = make_report(vec![], vec![endpoint("svc", "POST /api/users", 10)]);
    let after = make_report(vec![], vec![endpoint("svc", "POST /api/users", 20)]);
    let diff = diff_runs(&before, &after);
    assert_eq!(diff.endpoint_metric_deltas.len(), 1);
    let d = &diff.endpoint_metric_deltas[0];
    assert_eq!(d.service, "svc");
    assert_eq!(d.endpoint, "POST /api/users");
    assert_eq!(d.before_io_ops, 10);
    assert_eq!(d.after_io_ops, 20);
    assert_eq!(d.delta, 10);
}

#[test]
fn endpoint_absent_from_before_is_a_full_addition() {
    let before = make_report(vec![], vec![]);
    let after = make_report(vec![], vec![endpoint("svc", "POST /api", 7)]);
    let diff = diff_runs(&before, &after);
    assert_eq!(diff.endpoint_metric_deltas.len(), 1);
    let d = &diff.endpoint_metric_deltas[0];
    assert_eq!(d.before_io_ops, 0);
    assert_eq!(d.after_io_ops, 7);
    assert_eq!(d.delta, 7);
}

#[test]
fn endpoint_absent_from_after_is_a_full_removal() {
    let before = make_report(vec![], vec![endpoint("svc", "POST /api", 5)]);
    let after = make_report(vec![], vec![]);
    let diff = diff_runs(&before, &after);
    assert_eq!(diff.endpoint_metric_deltas.len(), 1);
    let d = &diff.endpoint_metric_deltas[0];
    assert_eq!(d.before_io_ops, 5);
    assert_eq!(d.after_io_ops, 0);
    assert_eq!(d.delta, -5);
}

#[test]
fn endpoint_deltas_sorted_regressions_first() {
    let before = make_report(
        vec![],
        vec![
            endpoint("svc", "POST /improve", 10),
            endpoint("svc", "POST /regress", 5),
            endpoint("svc", "POST /steady", 7),
        ],
    );
    let after = make_report(
        vec![],
        vec![
            endpoint("svc", "POST /improve", 2),
            endpoint("svc", "POST /regress", 50),
            endpoint("svc", "POST /steady", 7),
        ],
    );
    let diff = diff_runs(&before, &after);
    assert_eq!(diff.endpoint_metric_deltas.len(), 2);
    assert_eq!(diff.endpoint_metric_deltas[0].endpoint, "POST /regress");
    assert_eq!(diff.endpoint_metric_deltas[0].delta, 45);
    assert_eq!(diff.endpoint_metric_deltas[1].endpoint, "POST /improve");
    assert_eq!(diff.endpoint_metric_deltas[1].delta, -8);
}

#[test]
fn equal_severity_in_both_runs_is_not_a_severity_change() {
    let f = finding(
        FindingType::NPlusOneSql,
        Severity::Critical,
        "svc",
        "POST /api",
        "SELECT *",
    );
    let before = make_report(vec![f.clone()], vec![]);
    let after = make_report(vec![f], vec![]);
    let diff = diff_runs(&before, &after);
    assert!(diff.severity_changes.is_empty());
}

#[test]
fn same_identity_different_trace_id_is_treated_as_one_finding() {
    // Two findings with identical (type, service, endpoint, template)
    // but different trace_ids are conceptually "the same anti-pattern"
    // observed twice. The diff collapses them and sums occurrences.
    let mut f_a = finding(
        FindingType::NPlusOneSql,
        Severity::Warning,
        "svc",
        "POST /api",
        "SELECT *",
    );
    f_a.trace_id = "trace-a".to_string();
    f_a.pattern.occurrences = 6;
    let mut f_b = f_a.clone();
    f_b.trace_id = "trace-b".to_string();
    f_b.pattern.occurrences = 12;

    let before = make_report(vec![], vec![]);
    let after = make_report(vec![f_a, f_b], vec![]);
    let diff = diff_runs(&before, &after);
    assert_eq!(diff.new_findings.len(), 1, "two duplicates collapse to one");
    assert_eq!(
        diff.new_findings[0].pattern.occurrences, 18,
        "occurrences from both findings sum on collapse"
    );
}

#[test]
fn duplicate_identity_collapse_sums_occurrences() {
    // Direct test of `build_identity_map` summing semantic.
    let mut f_a = finding(
        FindingType::NPlusOneSql,
        Severity::Warning,
        "svc",
        "POST /api",
        "SELECT *",
    );
    f_a.pattern.occurrences = 6;
    let mut f_b = f_a.clone();
    f_b.pattern.occurrences = 60;

    let before = make_report(vec![], vec![]);
    let after = make_report(vec![f_a, f_b], vec![]);
    let diff = diff_runs(&before, &after);
    assert_eq!(diff.new_findings.len(), 1);
    assert_eq!(diff.new_findings[0].pattern.occurrences, 66);
}

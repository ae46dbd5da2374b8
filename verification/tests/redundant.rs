//! Redundant operation detection.

use sentinel_core::detect::{Confidence, Finding, FindingType, Pattern, ServiceCount, Severity};
use sentinel_core::detect::redundant::detect_redundant;
use sentinel_core::event::{EventSource, EventType, GroupingAttribute, NormalizedEvent, SpanEvent, Trace};

/// A span as it is recorded, with the trace it belongs to.
#[derive(Debug, Clone)]
struct SpanRecord {
    trace_id: String,
    span: SpanEvent,
}

impl std::ops::Deref for SpanRecord {
    type Target = SpanEvent;

    fn deref(&self) -> &SpanEvent {
        &self.span
    }
}

impl std::ops::DerefMut for SpanRecord {
    fn deref_mut(&mut self) -> &mut SpanEvent {
        &mut self.span
    }
}

fn recorded_span(
    trace_id: &str,
    span_id: &str,
    event_type: EventType,
    operation: &str,
    target: &str,
    timestamp: &str,
    duration_us: u64,
) -> SpanRecord {
    SpanRecord {
        trace_id: trace_id.to_string(),
        span: SpanEvent {
            timestamp: timestamp.to_string(),
            span_id: span_id.to_string(),
            parent_span_id: None,
            service: "order-svc".to_string(),
            event_type,
            operation: operation.to_string(),
            target: target.to_string(),
            duration_us,
            source: EventSource {
                endpoint: "POST /api/orders/{id}/submit".to_string(),
                method: "OrderService::create_order".to_string(),
            },
            code_function: None,
            code_filepath: None,
            code_lineno: None,
            code_namespace: None,
            instrumentation_scopes: Vec::new(),
            grouping: Vec::new(),
        },
    }
}

fn make_sql_event(trace_id: &str, span_id: &str, target: &str, timestamp: &str) -> SpanRecord {
    make_sql_event_with_duration(trace_id, span_id, target, timestamp, 800)
}

fn make_sql_event_with_duration(
    trace_id: &str,
    span_id: &str,
    target: &str,
    timestamp: &str,
    duration_us: u64,
) -> SpanRecord {
    recorded_span(trace_id, span_id, EventType::Sql, "SELECT", target, timestamp, duration_us)
}

fn make_http_event(trace_id: &str, span_id: &str, target: &str, timestamp: &str) -> SpanRecord {
    make_http_event_with_duration(trace_id, span_id, target, timestamp, 15_000)
}

fn make_http_event_with_duration(
    trace_id: &str,
    span_id: &str,
    target: &str,
    timestamp: &str,
    duration_us: u64,
) -> SpanRecord {
    recorded_span(trace_id, span_id, EventType::HttpOut, "GET", target, timestamp, duration_us)
}

fn make_redundant_events() -> Vec<SpanRecord> {
    (1..=3)
        .map(|i| {
            make_sql_event(
                "trace-1",
                &format!("span-{i}"),
                "SELECT * FROM order_item WHERE order_id = 42",
                &format!("2025-07-10T14:32:01.{:03}Z", i * 50),
            )
        })
        .collect()
}

fn grouping(key: &str, value: &str) -> Vec<GroupingAttribute> {
    vec![GroupingAttribute { key: key.to_string(), value: value.to_string() }]
}

/// Replace the literals of a statement by `?`.
fn normalize_sql(statement: &str) -> (String, Vec<String>) {
    let chars: Vec<char> = statement.chars().collect();
    let mut template = String::new();
    let mut params = Vec::new();
    let mut i = 0;
    while i < chars.len() {
        let c = chars[i];
        let in_word = i > 0 && (chars[i - 1].is_alphanumeric() || chars[i - 1] == '_');
        if c == '\'' {
            let end = (i + 1..chars.len()).find(|&k| chars[k] == '\'').unwrap_or(chars.len());
            params.push(chars[i + 1..end].iter().collect());
            template.push('?');
            i = end + 1;
        } else if c.is_ascii_digit() && !in_word {
            let end = (i..chars.len()).find(|&k| !chars[k].is_ascii_digit()).unwrap_or(chars.len());
            params.push(chars[i..end].iter().collect());
            template.push('?');
            i = end;
        } else {
            template.push(c);
            i += 1;
        }
    }
    (template, params)
}

/// Replace the numeric segments of a URL's path by `{id}`.
fn normalize_http(method: &str, url: &str) -> (String, Vec<String>) {
    let rest = url.split("://").nth(1).unwrap_or(url);
    let path = rest.find('/').map_or("/", |at| &rest[at..]);
    let mut params = Vec::new();
    let segments: Vec<String> = path
        .split('/')
        .map(|s| {
            if !s.is_empty() && s.chars().all(|c| c.is_ascii_digit()) {
                params.push(s.to_string());
                "{id}".to_string()
            } else {
                s.to_string()
            }
        })
        .collect();
    (format!("{method} {}", segments.join("/")), params)
}

fn normalize_one(event: SpanRecord) -> NormalizedEvent {
    let (template, params) = match event.event_type {
        EventType::Sql => normalize_sql(&event.target),
        EventType::HttpOut => normalize_http(&event.operation, &event.target),
    };
    let session_command = event.target.contains("set_config(");
    NormalizedEvent { event: event.span, template, params, session_command }
}

fn make_trace(events: Vec<SpanRecord>) -> Trace {
    Trace {
        trace_id: events.first().map(|e| e.trace_id.clone()).unwrap_or_default(),
        spans: events.into_iter().map(normalize_one).collect(),
    }
}

fn make_finding(finding_type: FindingType, severity: Severity) -> Finding {
    Finding {
        finding_type,
        severity,
        trace_id: "trace-1".to_string(),
        service: "order-svc".to_string(),
        grouping: Vec::new(),
        source_endpoint: "POST /api/orders/{id}/submit".to_string(),
        pattern: Pattern {
            template: "SELECT * FROM order_item WHERE order_id = ?".to_string(),
            occurrences: 6,
            window_ms: 250,
            distinct_params: 6,
            occurrences_by_service: Vec::new(),
        },
        suggestion: "batch".to_string(),
        first_timestamp: "2025-07-10T14:32:01.000Z".to_string(),
        last_timestamp: "2025-07-10T14:32:01.250Z".to_string(),
        green_impact: None,
        confidence: Confidence::default(),
        classification_method: None,
        code_location: None,
        instrumentation_scopes: Vec::new(),
        suggested_fix: None,
        signature: String::new(),
    }
}



#[test]
fn detects_redundant_sql() {
    let events = make_redundant_events();

    let trace = make_trace(events);
    let findings = detect_redundant(&trace, &[]);

    assert_eq!(findings.len(), 1);
    assert_eq!(findings[0].finding_type, FindingType::RedundantSql);
    assert_eq!(findings[0].severity, Severity::Info);
    assert_eq!(findings[0].pattern.occurrences, 3);
    assert_eq!(findings[0].pattern.distinct_params, 1);
    assert!(findings[0].suggestion.contains("cache"));
    assert!(findings[0].pattern.occurrences_by_service.is_empty());
}

#[test]
fn redundant_across_services_splits_occurrences() {
    let mut events = make_redundant_events();
    for (i, event) in events.iter_mut().enumerate() {
        event.service = (if i < 2 { "order-svc" } else { "inventory-svc" }).to_string();
    }
    let trace = make_trace(events);
    let findings = detect_redundant(&trace, &[]);

    assert_eq!(findings.len(), 1);
    assert_eq!(findings[0].service, "order-svc");
    assert_eq!(
        findings[0].pattern.occurrences_by_service,
        vec![
            ServiceCount { service: "inventory-svc".to_string(), count: 1 },
            ServiceCount { service: "order-svc".to_string(), count: 2 },
        ]
    );
    let credit: Vec<(String, usize)> = findings[0]
        .avoidable_by_service()
        .into_iter()
        .map(|c| (c.service, c.count))
        .collect();
    assert_eq!(credit, [("order-svc".to_string(), 1), ("inventory-svc".to_string(), 1)]);
}

#[test]
fn session_commands_are_never_redundant() {
    let mut events: Vec<SpanRecord> = (1..=6)
        .map(|i| {
            make_sql_event(
                "trace-1",
                &format!("span-{i}"),
                "SELECT set_config(?, ?, false)",
                &format!("2025-07-10T14:32:01.{:03}Z", i * 10),
            )
        })
        .collect();
    // Positive control: a real duplicate in the same trace must survive,
    // so the skip cannot pass by silencing everything.
    events.extend((1..=2).map(|i| {
        make_sql_event(
            "trace-1",
            &format!("order-{i}"),
            "SELECT * FROM order_item WHERE order_id = 42",
            &format!("2025-07-10T14:32:01.{:03}Z", 200 + i * 10),
        )
    }));
    let trace = make_trace(events);

    let findings = detect_redundant(&trace, &[]);

    assert_eq!(findings.len(), 1, "{findings:#?}");
    assert!(
        findings[0].pattern.template.contains("order_item"),
        "six connection checkouts are not a redundant query: {findings:?}"
    );
}

#[test]
fn detects_redundant_http() {
    let events: Vec<SpanRecord> = (1..=3)
        .map(|i| {
            make_http_event(
                "trace-1",
                &format!("span-{i}"),
                "http://user-svc:5000/api/users/42",
                &format!("2025-07-10T14:32:01.{:03}Z", i * 50),
            )
        })
        .collect();

    let trace = make_trace(events);
    let findings = detect_redundant(&trace, &[]);

    assert_eq!(findings.len(), 1);
    assert_eq!(findings[0].finding_type, FindingType::RedundantHttp);
    assert_eq!(findings[0].pattern.occurrences, 3);
}

#[test]
fn no_duplicates_no_finding() {
    let events = vec![
        make_sql_event(
            "trace-1",
            "span-1",
            "SELECT * FROM order_item WHERE order_id = 1",
            "2025-07-10T14:32:01.000Z",
        ),
        make_sql_event(
            "trace-1",
            "span-2",
            "SELECT * FROM order_item WHERE order_id = 2",
            "2025-07-10T14:32:01.050Z",
        ),
    ];

    let trace = make_trace(events);
    let findings = detect_redundant(&trace, &[]);
    assert!(findings.is_empty());
}

#[test]
fn warning_severity_for_5_or_more() {
    let events: Vec<SpanRecord> = (1..=5)
        .map(|i| {
            make_sql_event(
                "trace-1",
                &format!("span-{i}"),
                "SELECT * FROM order_item WHERE order_id = 42",
                &format!("2025-07-10T14:32:01.{:03}Z", i * 50),
            )
        })
        .collect();

    let trace = make_trace(events);
    let findings = detect_redundant(&trace, &[]);

    assert_eq!(findings.len(), 1);
    assert_eq!(findings[0].severity, Severity::Warning);
}

#[test]
fn comma_in_param_no_false_positive() {
    // Two different param sets that would collide with join(",")
    // param ["a,b"] vs params ["a", "b"] should NOT be grouped together
    let events = vec![
        make_sql_event(
            "trace-1",
            "span-1",
            "SELECT * FROM t WHERE x = 'a,b'",
            "2025-07-10T14:32:01.000Z",
        ),
        make_sql_event(
            "trace-1",
            "span-2",
            "SELECT * FROM t WHERE x = 'a,b'",
            "2025-07-10T14:32:01.050Z",
        ),
    ];

    let trace = make_trace(events);
    let findings = detect_redundant(&trace, &[]);
    // These ARE redundant (same template, same params)
    assert_eq!(findings.len(), 1);
    assert_eq!(findings[0].pattern.occurrences, 2);
}

#[test]
fn exactly_two_occurrences_is_info() {
    let events: Vec<SpanRecord> = (1..=2)
        .map(|i| {
            make_sql_event(
                "trace-1",
                &format!("span-{i}"),
                "SELECT * FROM order_item WHERE order_id = 42",
                &format!("2025-07-10T14:32:01.{:03}Z", i * 50),
            )
        })
        .collect();

    let trace = make_trace(events);
    let findings = detect_redundant(&trace, &[]);

    assert_eq!(findings.len(), 1);
    assert_eq!(findings[0].severity, Severity::Info);
    assert_eq!(findings[0].pattern.occurrences, 2);
}

#[test]
fn redundant_groups_keep_equal_values_from_different_keys_separate() {
    let mut events: Vec<_> = (0..4)
        .map(|i| {
            make_sql_event(
                "trace-1",
                &format!("span-{i}"),
                "SELECT * FROM order_item WHERE order_id = 42",
                &format!("2025-07-10T14:32:01.{:03}Z", i * 50),
            )
        })
        .collect();
    for (i, event) in events.iter_mut().enumerate() {
        let key = if i < 2 {
            "tenant.id"
        } else {
            "k8s.namespace.name"
        };
        event.grouping = grouping(key, "prod");
    }
    let trace = make_trace(events);

    let findings = detect_redundant(&trace, &[]);

    assert_eq!(findings.len(), 2, "{findings:#?}");
    assert!(findings.iter().all(|f| f.pattern.occurrences == 2));
}

#[test]
fn exactly_four_occurrences_is_info() {
    let events: Vec<SpanRecord> = (1..=4)
        .map(|i| {
            make_sql_event(
                "trace-1",
                &format!("span-{i}"),
                "SELECT * FROM order_item WHERE order_id = 42",
                &format!("2025-07-10T14:32:01.{:03}Z", i * 50),
            )
        })
        .collect();

    let trace = make_trace(events);
    let findings = detect_redundant(&trace, &[]);

    assert_eq!(findings.len(), 1);
    assert_eq!(findings[0].severity, Severity::Info);
    assert_eq!(findings[0].pattern.occurrences, 4);
}

#[test]
fn single_event_no_finding() {
    let events = vec![make_sql_event(
        "trace-1",
        "span-1",
        "SELECT * FROM order_item WHERE order_id = 42",
        "2025-07-10T14:32:01.000Z",
    )];

    let trace = make_trace(events);
    let findings = detect_redundant(&trace, &[]);
    assert!(findings.is_empty());
}

#[test]
fn skips_groups_already_reclassified_as_n_plus_one() {
    // Two redundant groups in the same trace: template_X has 3 spans
    // and is also flagged by n+1 (e.g. via the sanitizer-aware
    // heuristic), template_Y has 2 spans and is not. Only template_Y
    // should produce a redundant finding.
    let template_x = "SELECT * FROM order_item WHERE order_id = ?";
    let template_y = "SELECT * FROM users WHERE id = ?";
    let mut events: Vec<SpanRecord> = Vec::new();
    for i in 1..=3 {
        events.push(make_sql_event(
            "trace-1",
            &format!("x-{i}"),
            "SELECT * FROM order_item WHERE order_id = 42",
            &format!("2025-07-10T14:32:01.{:03}Z", i * 50),
        ));
    }
    for i in 1..=2 {
        events.push(make_sql_event(
            "trace-1",
            &format!("y-{i}"),
            "SELECT * FROM users WHERE id = 7",
            &format!("2025-07-10T14:32:02.{:03}Z", i * 50),
        ));
    }
    let trace = make_trace(events);

    let n_plus_one_findings = vec![make_finding(
        FindingType::NPlusOneSql,
        Severity::Warning,
    )];
    // Override the template on the synthetic n+1 finding to template_x.
    let mut n_plus_one_findings = n_plus_one_findings;
    n_plus_one_findings[0].pattern.template = template_x.to_string();

    let findings = detect_redundant(&trace, &n_plus_one_findings);
    assert_eq!(findings.len(), 1);
    assert_eq!(findings[0].finding_type, FindingType::RedundantSql);
    assert_eq!(findings[0].pattern.template, template_y);
}

#[test]
fn emits_redundant_when_n_plus_one_findings_empty() {
    let events = make_redundant_events();
    let trace = make_trace(events);
    let findings = detect_redundant(&trace, &[]);
    assert_eq!(findings.len(), 1);
    assert_eq!(findings[0].finding_type, FindingType::RedundantSql);
    assert_eq!(findings[0].classification_method, None);
}

#[test]
fn redundant_finding_has_first_last_timestamps() {
    let events: Vec<SpanRecord> = (1..=3)
        .map(|i| {
            make_sql_event(
                "trace-1",
                &format!("span-{i}"),
                "SELECT * FROM order_item WHERE order_id = 42",
                &format!("2025-07-10T14:32:01.{:03}Z", i * 50),
            )
        })
        .collect();

    let trace = make_trace(events);
    let findings = detect_redundant(&trace, &[]);

    assert_eq!(findings.len(), 1);
    assert_eq!(findings[0].first_timestamp, "2025-07-10T14:32:01.050Z");
    assert_eq!(findings[0].last_timestamp, "2025-07-10T14:32:01.150Z");
}

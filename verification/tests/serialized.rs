//! Detection of serialized sibling calls.

use sentinel_core::detect::{FindingType, Severity, TraceIndices};
use sentinel_core::detect::serialized::detect_serialized;
use sentinel_core::event::{EventSource, EventType, GroupingAttribute, NormalizedEvent, SpanEvent, Trace};

/// A span as it is recorded, with the trace it belongs to.
#[derive(Debug, Clone)]
struct SpanRecord {
    trace_id: String,
    span: SpanEvent,
}

impl std::ops::Deref for SpanRecord {
    type Target = SpanEvent;

    fn deref(&self) -> &SpanEvent {
        &self.span
    }
}

impl std::ops::DerefMut for SpanRecord {
    fn deref_mut(&mut self) -> &mut SpanEvent {
        &mut self.span
    }
}

fn recorded_span(
    trace_id: &str,
    span_id: &str,
    event_type: EventType,
    operation: &str,
    target: &str,
    timestamp: &str,
    duration_us: u64,
) -> SpanRecord {
    SpanRecord {
        trace_id: trace_id.to_string(),
        span: SpanEvent {
            timestamp: timestamp.to_string(),
            span_id: span_id.to_string(),
            parent_span_id: None,
            service: "order-svc".to_string(),
            event_type,
            operation: operation.to_string(),
            target: target.to_string(),
            duration_us,
            source: EventSource {
                endpoint: "POST /api/orders/{id}/submit".to_string(),
                method: "OrderService::create_order".to_string(),
            },
            code_function: None,
            code_filepath: None,
            code_lineno: None,
            code_namespace: None,
            instrumentation_scopes: Vec::new(),
            grouping: Vec::new(),
        },
    }
}

fn make_sql_event_with_duration(
    trace_id: &str,
    span_id: &str,
    target: &str,
    timestamp: &str,
    duration_us: u64,
) -> SpanRecord {
    recorded_span(trace_id, span_id, EventType::Sql, "SELECT", target, timestamp, duration_us)
}

fn make_http_event_with_duration(
    trace_id: &str,
    span_id: &str,
    target: &str,
    timestamp: &str,
    duration_us: u64,
) -> SpanRecord {
    recorded_span(trace_id, span_id, EventType::HttpOut, "GET", target, timestamp, duration_us)
}

fn grouping(key: &str, value: &str) -> Vec<GroupingAttribute> {
    vec![GroupingAttribute { key: key.to_string(), value: value.to_string() }]
}

/// Replace the literals of a statement by `?`.
fn normalize_sql(statement: &str) -> (String, Vec<String>) {
    let chars: Vec<char> = statement.chars().collect();
    let mut template = String::new();
    let mut params = Vec::new();
    let mut i = 0;
    while i < chars.len() {
        let c = chars[i];
        let in_word = i > 0 && (chars[i - 1].is_alphanumeric() || chars[i - 1] == '_');
        if c == '\'' {
            let end = (i + 1..chars.len()).find(|&k| chars[k] == '\'').unwrap_or(chars.len());
            params.push(chars[i + 1..end].iter().collect());
            template.push('?');
            i = end + 1;
        } else if c.is_ascii_digit() && !in_word {
            let end = (i..chars.len()).find(|&k| !chars[k].is_ascii_digit()).unwrap_or(chars.len());
            params.push(chars[i..end].iter().collect());
            template.push('?');
            i = end;
        } else {
            template.push(c);
            i += 1;
        }
    }
    (template, params)
}

/// Replace the numeric segments of a URL's path by `{id}`.
fn normalize_http(method: &str, url: &str) -> (String, Vec<String>) {
    let rest = url.split("://").nth(1).unwrap_or(url);
    let path = rest.find('/').map_or("/", |at| &rest[at..]);
    let mut params = Vec::new();
    let segments: Vec<String> = path
        .split('/')
        .map(|s| {
            if !s.is_empty() && s.chars().all(|c| c.is_ascii_digit()) {
                params.push(s.to_string());
                "{id}".to_string()
            } else {
                s.to_string()
            }
        })
        .collect();
    (format!("{method} {}", segments.join("/")), params)
}

fn normalize_one(event: SpanRecord) -> NormalizedEvent {
    let (template, params) = match event.event_type {
        EventType::Sql => normalize_sql(&event.target),
        EventType::HttpOut => normalize_http(&event.operation, &event.target),
    };
    let session_command = event.target.contains("set_config(");
    NormalizedEvent { event: event.span, template, params, session_command }
}

fn make_trace(events: Vec<SpanRecord>) -> Trace {
    Trace {
        trace_id: events.first().map(|e| e.trace_id.clone()).unwrap_or_default(),
        spans: events.into_iter().map(normalize_one).collect(),
    }
}



// Structurally different URLs so they normalize to distinct templates.
const DISTINCT_URLS: &[&str] = &[
    "http://user-svc/api/users/42",
    "http://inventory-svc/api/inventory/check",
    "http://pricing-svc/api/pricing/quote",
    "http://notif-svc/api/notifications/send",
    "http://shipping-svc/api/shipping/estimate",
    "http://billing-svc/api/billing/charge",
];

/// Create a parent span + N sequential children with different services/templates.
fn make_sequential_children(
    trace_id: &str,
    parent_id: &str,
    count: usize,
) -> Vec<SpanRecord> {
    let mut events = Vec::new();

    // Parent span
    let mut root = make_http_event_with_duration(
        trace_id,
        parent_id,
        "http://gateway/api/orders/42/submit",
        "2025-07-10T14:32:01.000Z",
        1_000_000,
    );
    root.parent_span_id = None;
    events.push(root);

    for i in 0..count {
        let start_ms = 100 + i * 120;
        let mut child = make_http_event_with_duration(
            trace_id,
            &format!("child-{i}"),
            DISTINCT_URLS[i % DISTINCT_URLS.len()],
            &format!("2025-07-10T14:32:01.{start_ms:03}Z"),
            100_000, // 100ms each
        );
        child.parent_span_id = Some(parent_id.to_string());
        child.service = format!("svc-{i}");
        events.push(child);
    }
    events
}

#[test]
fn detects_sequential_siblings() {
    let events = make_sequential_children("trace-1", "root", 4);
    let trace = make_trace(events);
    let findings = detect_serialized(&trace, &TraceIndices::build(&trace), 3);

    assert_eq!(findings.len(), 1);
    assert_eq!(findings[0].finding_type, FindingType::SerializedCalls);
    assert_eq!(findings[0].severity, Severity::Info);
    assert_eq!(findings[0].pattern.occurrences, 4);
}

#[test]
fn serialized_no_finding_below_threshold() {
    let events = make_sequential_children("trace-1", "root", 2);
    let trace = make_trace(events);
    let findings = detect_serialized(&trace, &TraceIndices::build(&trace), 3);
    assert!(findings.is_empty());
}

#[test]
fn overlapping_siblings_no_finding() {
    let mut events = Vec::new();

    // Parent
    let mut root = make_http_event_with_duration(
        "trace-1",
        "root",
        "http://gateway/api/orders",
        "2025-07-10T14:32:01.000Z",
        500_000,
    );
    root.parent_span_id = None;
    events.push(root);

    // 4 children all starting at the same time (overlapping)
    for (i, url) in DISTINCT_URLS.iter().enumerate().take(4) {
        let mut child = make_http_event_with_duration(
            "trace-1",
            &format!("child-{i}"),
            url,
            "2025-07-10T14:32:01.100Z",
            100_000,
        );
        child.parent_span_id = Some("root".to_string());
        child.service = format!("svc-{i}");
        events.push(child);
    }

    let trace = make_trace(events);
    let findings = detect_serialized(&trace, &TraceIndices::build(&trace), 3);
    assert!(findings.is_empty(), "overlapping spans should not trigger");
}

#[test]
fn same_template_skipped() {
    let mut events = Vec::new();

    let mut root = make_http_event_with_duration(
        "trace-1",
        "root",
        "http://gateway/api/orders",
        "2025-07-10T14:32:01.000Z",
        500_000,
    );
    root.parent_span_id = None;
    events.push(root);

    // 5 sequential children, ALL with the same target template
    for i in 0..5 {
        let start_ms = 100 + i * 120;
        let mut child = make_http_event_with_duration(
            "trace-1",
            &format!("child-{i}"),
            &format!("http://svc/api/users/{}", i + 1),
            &format!("2025-07-10T14:32:01.{start_ms:03}Z"),
            100_000,
        );
        child.parent_span_id = Some("root".to_string());
        events.push(child);
    }

    let trace = make_trace(events);
    let findings = detect_serialized(&trace, &TraceIndices::build(&trace), 3);
    assert!(
        findings.is_empty(),
        "same template = N+1 territory, should be skipped"
    );
}

#[test]
fn mixed_overlap_partial_sequence() {
    let mut events = Vec::new();

    let mut root = make_http_event_with_duration(
        "trace-1",
        "root",
        "http://gateway/api/orders",
        "2025-07-10T14:32:01.000Z",
        1_000_000,
    );
    root.parent_span_id = None;
    events.push(root);

    // First 3 children: sequential (different templates)
    for (i, url) in DISTINCT_URLS.iter().enumerate().take(3) {
        let start_ms = 100 + i * 120;
        let mut child = make_http_event_with_duration(
            "trace-1",
            &format!("child-{i}"),
            url,
            &format!("2025-07-10T14:32:01.{start_ms:03}Z"),
            100_000,
        );
        child.parent_span_id = Some("root".to_string());
        child.service = format!("svc-{i}");
        events.push(child);
    }

    // Next 3 children: overlapping with each other AND with last sequential span.
    // child-2 ends at 340+100=440ms. These start at 400ms to overlap with child-2.
    for (i, url) in DISTINCT_URLS.iter().enumerate().take(6).skip(3) {
        let mut child = make_http_event_with_duration(
            "trace-1",
            &format!("child-{i}"),
            url,
            "2025-07-10T14:32:01.400Z",
            100_000,
        );
        child.parent_span_id = Some("root".to_string());
        child.service = format!("svc-{i}");
        events.push(child);
    }

    let trace = make_trace(events);
    let findings = detect_serialized(&trace, &TraceIndices::build(&trace), 3);
    assert_eq!(findings.len(), 1);
    // First 3 are sequential (100-200, 220-320, 340-440), then overlap breaks at 400
    assert_eq!(findings[0].pattern.occurrences, 3);
}

#[test]
fn no_parent_span_id_no_finding() {
    // Spans without parent_span_id
    let events: Vec<_> = (0..5)
        .map(|i| {
            make_http_event_with_duration(
                "trace-1",
                &format!("span-{i}"),
                &format!("http://svc-{i}/api/{i}"),
                &format!("2025-07-10T14:32:01.{:03}Z", i * 120),
                100_000,
            )
        })
        .collect();
    let trace = make_trace(events);
    let findings = detect_serialized(&trace, &TraceIndices::build(&trace), 3);
    assert!(findings.is_empty());
}

#[test]
fn potential_time_savings_in_suggestion() {
    // 3 sequential children: 120ms, 95ms, 80ms
    let mut events = Vec::new();

    let mut root = make_http_event_with_duration(
        "trace-1",
        "root",
        "http://gateway/api/orders",
        "2025-07-10T14:32:01.000Z",
        500_000,
    );
    root.parent_span_id = None;
    events.push(root);

    // child-0: starts at 100ms, duration 120ms (ends at 220ms)
    let mut c0 = make_http_event_with_duration(
        "trace-1",
        "child-0",
        "http://user-svc/api/users/42",
        "2025-07-10T14:32:01.100Z",
        120_000,
    );
    c0.parent_span_id = Some("root".to_string());
    c0.service = "user-svc".to_string();
    events.push(c0);

    // child-1: starts at 220ms, duration 95ms (ends at 315ms)
    let mut c1 = make_http_event_with_duration(
        "trace-1",
        "child-1",
        "http://inventory-svc/api/inventory/check",
        "2025-07-10T14:32:01.220Z",
        95_000,
    );
    c1.parent_span_id = Some("root".to_string());
    c1.service = "inventory-svc".to_string();
    events.push(c1);

    // child-2: starts at 315ms, duration 80ms (ends at 395ms)
    let mut c2 = make_http_event_with_duration(
        "trace-1",
        "child-2",
        "http://pricing-svc/api/pricing/quote",
        "2025-07-10T14:32:01.315Z",
        80_000,
    );
    c2.parent_span_id = Some("root".to_string());
    c2.service = "pricing-svc".to_string();
    events.push(c2);

    let trace = make_trace(events);
    let findings = detect_serialized(&trace, &TraceIndices::build(&trace), 3);
    assert_eq!(findings.len(), 1);
    // Total: 120 + 95 + 80 = 295ms, parallel: ~120ms
    assert!(findings[0].suggestion.contains("Total sequential: 295ms"));
    assert!(
        findings[0]
            .suggestion
            .contains("potential parallel: ~120ms")
    );
}

#[test]
fn sql_and_http_mixed_siblings() {
    let mut events = Vec::new();

    let mut root = make_http_event_with_duration(
        "trace-1",
        "root",
        "http://gateway/api/orders",
        "2025-07-10T14:32:01.000Z",
        500_000,
    );
    root.parent_span_id = None;
    events.push(root);

    // Mix of SQL and HTTP children, sequential
    let mut c0 = make_sql_event_with_duration(
        "trace-1",
        "child-0",
        "SELECT * FROM users WHERE id = 42",
        "2025-07-10T14:32:01.100Z",
        100_000,
    );
    c0.parent_span_id = Some("root".to_string());
    events.push(c0);

    let mut c1 = make_http_event_with_duration(
        "trace-1",
        "child-1",
        "http://inventory-svc/api/check",
        "2025-07-10T14:32:01.220Z",
        100_000,
    );
    c1.parent_span_id = Some("root".to_string());
    c1.service = "inventory-svc".to_string();
    events.push(c1);

    let mut c2 = make_sql_event_with_duration(
        "trace-1",
        "child-2",
        "INSERT INTO audit_log VALUES (1, 'order_created')",
        "2025-07-10T14:32:01.340Z",
        100_000,
    );
    c2.parent_span_id = Some("root".to_string());
    events.push(c2);

    let trace = make_trace(events);
    let findings = detect_serialized(&trace, &TraceIndices::build(&trace), 3);
    assert_eq!(
        findings.len(),
        1,
        "mixed SQL/HTTP siblings should be detected"
    );
}

#[test]
fn dp_finds_longer_sequence_than_greedy_would() {
    // This test demonstrates the DP advantage over a greedy approach.
    //
    // Timeline:
    //   A: [0-200ms]  (long span, blocks B and C if chosen greedily)
    //   B: [100-150ms] (short, overlaps with A but not C)
    //   C: [160-300ms] (starts after B ends)
    //   D: [310-400ms] (starts after C ends)
    //
    // A greedy scan sorted by start time would pick A first, skip B and C
    // (overlap with A), then pick D. Result: {A, D} = 2 spans.
    //
    // The DP algorithm finds the optimal {B, C, D} = 3 spans, which is
    // strictly longer. With threshold=3, only the DP triggers a finding.
    let mut events = Vec::new();

    let mut root = make_http_event_with_duration(
        "trace-1",
        "root",
        "http://gateway/api/orders",
        "2025-07-10T14:32:00.000Z",
        2_000_000,
    );
    root.parent_span_id = None;
    events.push(root);

    // A: [0-200ms], long span
    let mut a = make_http_event_with_duration(
        "trace-1",
        "child-a",
        "http://auth-svc/api/auth/validate",
        "2025-07-10T14:32:01.000Z",
        200_000,
    );
    a.parent_span_id = Some("root".to_string());
    a.service = "auth-svc".to_string();
    events.push(a);

    // B: [100-150ms], short, overlaps with A
    let mut b = make_http_event_with_duration(
        "trace-1",
        "child-b",
        "http://user-svc/api/users/42",
        "2025-07-10T14:32:01.100Z",
        50_000,
    );
    b.parent_span_id = Some("root".to_string());
    b.service = "user-svc".to_string();
    events.push(b);

    // C: [160-300ms], starts after B ends, overlaps with A
    let mut c = make_http_event_with_duration(
        "trace-1",
        "child-c",
        "http://inventory-svc/api/inventory/check",
        "2025-07-10T14:32:01.160Z",
        140_000,
    );
    c.parent_span_id = Some("root".to_string());
    c.service = "inventory-svc".to_string();
    events.push(c);

    // D: [310-400ms], starts after both A and C end
    let mut d = make_http_event_with_duration(
        "trace-1",
        "child-d",
        "http://pricing-svc/api/pricing/quote",
        "2025-07-10T14:32:01.310Z",
        90_000,
    );
    d.parent_span_id = Some("root".to_string());
    d.service = "pricing-svc".to_string();
    events.push(d);

    let trace = make_trace(events);

    // With threshold=3, a greedy approach would find only 2 spans ({A,D})
    // and would NOT emit a finding. The DP finds {B,C,D} = 3, which triggers.
    let findings = detect_serialized(&trace, &TraceIndices::build(&trace), 3);
    assert_eq!(
        findings.len(),
        1,
        "DP should find the optimal B,C,D sequence of length 3"
    );
    assert_eq!(findings[0].pattern.occurrences, 3);
}

#[test]
fn identical_timestamps_does_not_hang() {
    let mut events = Vec::new();

    let mut root = make_http_event_with_duration(
        "trace-1",
        "root",
        "http://gateway/api/orders",
        "2025-07-10T14:32:01.000Z",
        1_000_000,
    );
    root.parent_span_id = None;
    events.push(root);

    // 5 children all with the SAME timestamp and 0ms duration
    for (i, url) in DISTINCT_URLS.iter().enumerate().take(5) {
        let mut child = make_http_event_with_duration(
            "trace-1",
            &format!("child-{i}"),
            url,
            "2025-07-10T14:32:01.100Z",
            0, // zero duration
        );
        child.parent_span_id = Some("root".to_string());
        child.service = format!("svc-{i}");
        events.push(child);
    }

    let trace = make_trace(events);
    // Must terminate. The result doesn't matter, only that it doesn't hang.
    let _findings = detect_serialized(&trace, &TraceIndices::build(&trace), 3);
}

//! Chatty service detection.

use sentinel_core::detect::{FindingType, Severity};
use sentinel_core::detect::chatty::detect_chatty;
use sentinel_core::event::{EventSource, EventType, GroupingAttribute, NormalizedEvent, SpanEvent, Trace};

/// A span as it is recorded, with the trace it belongs to.
#[derive(Debug, Clone)]
struct SpanRecord {
    trace_id: String,
    span: SpanEvent,
}

impl std::ops::Deref for SpanRecord {
    type Target = SpanEvent;

    fn deref(&self) -> &SpanEvent {
        &self.span
    }
}

impl std::ops::DerefMut for SpanRecord {
    fn deref_mut(&mut self) -> &mut SpanEvent {
        &mut self.span
    }
}

fn recorded_span(
    trace_id: &str,
    span_id: &str,
    event_type: EventType,
    operation: &str,
    target: &str,
    timestamp: &str,
    duration_us: u64,
) -> SpanRecord {
    SpanRecord {
        trace_id: trace_id.to_string(),
        span: SpanEvent {
            timestamp: timestamp.to_string(),
            span_id: span_id.to_string(),
            parent_span_id: None,
            service: "order-svc".to_string(),
            event_type,
            operation: operation.to_string(),
            target: target.to_string(),
            duration_us,
            source: EventSource {
                endpoint: "POST /api/orders/{id}/submit".to_string(),
                method: "OrderService::create_order".to_string(),
            },
            code_function: None,
            code_filepath: None,
            code_lineno: None,
            code_namespace: None,
            instrumentation_scopes: Vec::new(),
            grouping: Vec::new(),
        },
    }
}

fn make_sql_event(trace_id: &str, span_id: &str, target: &str, timestamp: &str) -> SpanRecord {
    make_sql_event_with_duration(trace_id, span_id, target, timestamp, 800)
}

fn make_sql_event_with_duration(
    trace_id: &str,
    span_id: &str,
    target: &str,
    timestamp: &str,
    duration_us: u64,
) -> SpanRecord {
    recorded_span(trace_id, span_id, EventType::Sql, "SELECT", target, timestamp, duration_us)
}

fn make_http_event(trace_id: &str, span_id: &str, target: &str, timestamp: &str) -> SpanRecord {
    make_http_event_with_duration(trace_id, span_id, target, timestamp, 15_000)
}

fn make_http_event_with_duration(
    trace_id: &str,
    span_id: &str,
    target: &str,
    timestamp: &str,
    duration_us: u64,
) -> SpanRecord {
    recorded_span(trace_id, span_id, EventType::HttpOut, "GET", target, timestamp, duration_us)
}

fn grouping(key: &str, value: &str) -> Vec<GroupingAttribute> {
    vec![GroupingAttribute { key: key.to_string(), value: value.to_string() }]
}

/// Replace the literals of a statement by `?`.
fn normalize_sql(statement: &str) -> (String, Vec<String>) {
    let chars: Vec<char> = statement.chars().collect();
    let mut template = String::new();
    let mut params = Vec::new();
    let mut i = 0;
    while i < chars.len() {
        let c = chars[i];
        let in_word = i > 0 && (chars[i - 1].is_alphanumeric() || chars[i - 1] == '_');
        if c == '\'' {
            let end = (i + 1..chars.len()).find(|&k| chars[k] == '\'').unwrap_or(chars.len());
            params.push(chars[i + 1..end].iter().collect());
            template.push('?');
            i = end + 1;
        } else if c.is_ascii_digit() && !in_word {
            let end = (i..chars.len()).find(|&k| !chars[k].is_ascii_digit()).unwrap_or(chars.len());
            params.push(chars[i..end].iter().collect());
            template.push('?');
            i = end;
        } else {
            template.push(c);
            i += 1;
        }
    }
    (template, params)
}

/// Replace the numeric segments of a URL's path by `{id}`.
fn normalize_http(method: &str, url: &str) -> (String, Vec<String>) {
    let rest = url.split("://").nth(1).unwrap_or(url);
    let path = rest.find('/').map_or("/", |at| &rest[at..]);
    let mut params = Vec::new();
    let segments: Vec<String> = path
        .split('/')
        .map(|s| {
            if !s.is_empty() && s.chars().all(|c| c.is_ascii_digit()) {
                params.push(s.to_string());
                "{id}".to_string()
            } else {
                s.to_string()
            }
        })
        .collect();
    (format!("{method} {}", segments.join("/")), params)
}

fn normalize_one(event: SpanRecord) -> NormalizedEvent {
    let (template, params) = match event.event_type {
        EventType::Sql => normalize_sql(&event.target),
        EventType::HttpOut => normalize_http(&event.operation, &event.target),
    };
    let session_command = event.target.contains("set_config(");
    NormalizedEvent { event: event.span, template, params, session_command }
}

fn make_trace(events: Vec<SpanRecord>) -> Trace {
    Trace {
        trace_id: events.first().map(|e| e.trace_id.clone()).unwrap_or_default(),
        spans: events.into_iter().map(normalize_one).collect(),
    }
}



#[test]
fn detects_chatty_trace() {
    let events: Vec<_> = (1..=20)
        .map(|i| {
            make_http_event(
                "trace-1",
                &format!("span-{i}"),
                &format!("http://svc-{}/api/resource/{i}", i % 5),
                &format!("2025-07-10T14:32:01.{:03}Z", i * 10),
            )
        })
        .collect();

    let trace = make_trace(events);
    let findings = detect_chatty(&trace, 15);

    assert_eq!(findings.len(), 1);
    assert_eq!(findings[0].finding_type, FindingType::ChattyService);
    assert_eq!(findings[0].severity, Severity::Warning);
    assert_eq!(findings[0].pattern.occurrences, 20);
}

#[test]
fn chatty_critical_at_3x_threshold() {
    let events: Vec<_> = (1..=50)
        .map(|i| {
            make_http_event(
                "trace-1",
                &format!("span-{i}"),
                &format!("http://svc-{}/api/resource/{i}", i % 5),
                &format!("2025-07-10T14:32:01.{:03}Z", i % 1000),
            )
        })
        .collect();

    let trace = make_trace(events);
    let findings = detect_chatty(&trace, 15);

    assert_eq!(findings.len(), 1);
    assert_eq!(findings[0].severity, Severity::Critical);
}

#[test]
fn chatty_no_finding_below_threshold() {
    let events: Vec<_> = (1..=10)
        .map(|i| {
            make_http_event(
                "trace-1",
                &format!("span-{i}"),
                &format!("http://svc/api/resource/{i}"),
                &format!("2025-07-10T14:32:01.{:03}Z", i * 50),
            )
        })
        .collect();

    let trace = make_trace(events);
    let findings = detect_chatty(&trace, 15);
    assert!(findings.is_empty());
}

#[test]
fn chatty_no_finding_at_threshold() {
    let events: Vec<_> = (1..=15)
        .map(|i| {
            make_http_event(
                "trace-1",
                &format!("span-{i}"),
                &format!("http://svc/api/resource/{i}"),
                &format!("2025-07-10T14:32:01.{:03}Z", i * 10),
            )
        })
        .collect();

    let trace = make_trace(events);
    let findings = detect_chatty(&trace, 15);
    assert!(findings.is_empty());
}

#[test]
fn sql_events_not_counted() {
    let events: Vec<_> = (1..=20)
        .map(|i| {
            make_sql_event(
                "trace-1",
                &format!("span-{i}"),
                &format!("SELECT * FROM t WHERE id = {i}"),
                &format!("2025-07-10T14:32:01.{:03}Z", i * 10),
            )
        })
        .collect();

    let trace = make_trace(events);
    let findings = detect_chatty(&trace, 15);
    assert!(findings.is_empty());
}

#[test]
fn mixed_events_only_counts_http() {
    let mut events: Vec<_> = (1..=10)
        .map(|i| {
            make_sql_event(
                "trace-1",
                &format!("span-sql-{i}"),
                &format!("SELECT * FROM t WHERE id = {i}"),
                &format!("2025-07-10T14:32:01.{:03}Z", i * 10),
            )
        })
        .collect();
    events.extend((1..=10).map(|i| {
        make_http_event(
            "trace-1",
            &format!("span-http-{i}"),
            &format!("http://svc/api/resource/{i}"),
            &format!("2025-07-10T14:32:02.{:03}Z", i * 10),
        )
    }));

    let trace = make_trace(events);
    let findings = detect_chatty(&trace, 15);
    assert!(findings.is_empty(), "10 HTTP calls <= 15 threshold");
}

#[test]
fn distinct_params_counts_templates() {
    // 20 HTTP events, 5 going to template A, 15 going to template B
    let mut events: Vec<_> = (1..=5)
        .map(|i| {
            make_http_event(
                "trace-1",
                &format!("span-a{i}"),
                &format!("http://svc-a/api/users/{i}"),
                &format!("2025-07-10T14:32:01.{:03}Z", i * 10),
            )
        })
        .collect();
    events.extend((1..=15).map(|i| {
        make_http_event(
            "trace-1",
            &format!("span-b{i}"),
            &format!("http://svc-b/api/orders/{i}"),
            &format!("2025-07-10T14:32:02.{:03}Z", i * 10),
        )
    }));

    let trace = make_trace(events);
    let findings = detect_chatty(&trace, 15);
    assert_eq!(findings.len(), 1);
    // Two distinct normalized templates
    assert_eq!(findings[0].pattern.distinct_params, 2);
}

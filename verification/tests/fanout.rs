//! Excessive fanout detection.

use sentinel_core::detect::{FindingType, Severity};
use sentinel_core::detect::fanout::detect_fanout;
use sentinel_core::event::{EventSource, EventType, GroupingAttribute, NormalizedEvent, SpanEvent, Trace};

/// A span as it is recorded, with the trace it belongs to.
#[derive(Debug, Clone)]
struct SpanRecord {
    trace_id: String,
    span: SpanEvent,
}

impl std::ops::Deref for SpanRecord {
    type Target = SpanEvent;

    fn deref(&self) -> &SpanEvent {
        &self.span
    }
}

impl std::ops::DerefMut for SpanRecord {
    fn deref_mut(&mut self) -> &mut SpanEvent {
        &mut self.span
    }
}

fn recorded_span(
    trace_id: &str,
    span_id: &str,
    event_type: EventType,
    operation: &str,
    target: &str,
    timestamp: &str,
    duration_us: u64,
) -> SpanRecord {
    SpanRecord {
        trace_id: trace_id.to_string(),
        span: SpanEvent {
            timestamp: timestamp.to_string(),
            span_id: span_id.to_string(),
            parent_span_id: None,
            service: "order-svc".to_string(),
            event_type,
            operation: operation.to_string(),
            target: target.to_string(),
            duration_us,
            source: EventSource {
                endpoint: "POST /api/orders/{id}/submit".to_string(),
                method: "OrderService::create_order".to_string(),
            },
            code_function: None,
            code_filepath: None,
            code_lineno: None,
            code_namespace: None,
            instrumentation_scopes: Vec::new(),
            grouping: Vec::new(),
        },
    }
}

fn make_sql_event(trace_id: &str, span_id: &str, target: &str, timestamp: &str) -> SpanRecord {
    make_sql_event_with_duration(trace_id, span_id, target, timestamp, 800)
}

fn make_sql_event_with_duration(
    trace_id: &str,
    span_id: &str,
    target: &str,
    timestamp: &str,
    duration_us: u64,
) -> SpanRecord {
    recorded_span(trace_id, span_id, EventType::Sql, "SELECT", target, timestamp, duration_us)
}

fn grouping(key: &str, value: &str) -> Vec<GroupingAttribute> {
    vec![GroupingAttribute { key: key.to_string(), value: value.to_string() }]
}

/// Replace the literals of a statement by `?`.
fn normalize_sql(statement: &str) -> (String, Vec<String>) {
    let chars: Vec<char> = statement.chars().collect();
    let mut template = String::new();
    let mut params = Vec::new();
    let mut i = 0;
    while i < chars.len() {
        let c = chars[i];
        let in_word = i > 0 && (chars[i - 1].is_alphanumeric() || chars[i - 1] == '_');
        if c == '\'' {
            let end = (i + 1..chars.len()).find(|&k| chars[k] == '\'').unwrap_or(chars.len());
            params.push(chars[i + 1..end].iter().collect());
            template.push('?');
            i = end + 1;
        } else if c.is_ascii_digit() && !in_word {
            let end = (i..chars.len()).find(|&k| !chars[k].is_ascii_digit()).unwrap_or(chars.len());
            params.push(chars[i..end].iter().collect());
            template.push('?');
            i = end;
        } else {
            template.push(c);
            i += 1;
        }
    }
    (template, params)
}

/// Replace the numeric segments of a URL's path by `{id}`.
fn normalize_http(method: &str, url: &str) -> (String, Vec<String>) {
    let rest = url.split("://").nth(1).unwrap_or(url);
    let path = rest.find('/').map_or("/", |at| &rest[at..]);
    let mut params = Vec::new();
    let segments: Vec<String> = path
        .split('/')
        .map(|s| {
            if !s.is_empty() && s.chars().all(|c| c.is_ascii_digit()) {
                params.push(s.to_string());
                "{id}".to_string()
            } else {
                s.to_string()
            }
        })
        .collect();
    (format!("{method} {}", segments.join("/")), params)
}

fn normalize_one(event: SpanRecord) -> NormalizedEvent {
    let (template, params) = match event.event_type {
        EventType::Sql => normalize_sql(&event.target),
        EventType::HttpOut => normalize_http(&event.operation, &event.target),
    };
    let session_command = event.target.contains("set_config(");
    NormalizedEvent { event: event.span, template, params, session_command }
}

fn make_trace(events: Vec<SpanRecord>) -> Trace {
    Trace {
        trace_id: events.first().map(|e| e.trace_id.clone()).unwrap_or_default(),
        spans: events.into_iter().map(normalize_one).collect(),
    }
}



fn make_events_with_parent(
    trace_id: &str,
    parent_id: &str,
    count: usize,
) -> Vec<SpanRecord> {
    let mut events = Vec::new();
    // Add a root span (the parent)
    let mut root = make_sql_event(trace_id, parent_id, "SELECT 1", "2025-07-10T14:32:01.000Z");
    root.parent_span_id = None;
    events.push(root);

    // Add child spans
    for i in 0..count {
        let mut child = make_sql_event(
            trace_id,
            &format!("child-{i}"),
            &format!("SELECT * FROM t WHERE id = {i}"),
            &format!("2025-07-10T14:32:01.{:03}Z", (i + 1) * 10),
        );
        child.parent_span_id = Some(parent_id.to_string());
        events.push(child);
    }
    events
}

#[test]
fn detects_excessive_fanout() {
    let events = make_events_with_parent("trace-1", "root", 25);
    let trace = make_trace(events);
    let findings = detect_fanout(&trace, 20);

    assert_eq!(findings.len(), 1);
    assert_eq!(findings[0].finding_type, FindingType::ExcessiveFanout);
    assert_eq!(findings[0].severity, Severity::Warning);
    assert_eq!(findings[0].pattern.occurrences, 25);
}

#[test]
fn fanout_critical_at_3x_threshold() {
    let events = make_events_with_parent("trace-1", "root", 65);
    let trace = make_trace(events);
    let findings = detect_fanout(&trace, 20);

    assert_eq!(findings.len(), 1);
    assert_eq!(findings[0].severity, Severity::Critical);
}

#[test]
fn fanout_no_finding_below_threshold() {
    let events = make_events_with_parent("trace-1", "root", 10);
    let trace = make_trace(events);
    let findings = detect_fanout(&trace, 20);

    assert!(findings.is_empty());
}

#[test]
fn fanout_no_finding_at_threshold() {
    let events = make_events_with_parent("trace-1", "root", 20);
    let trace = make_trace(events);
    let findings = detect_fanout(&trace, 20);

    assert!(findings.is_empty());
}

#[test]
fn parent_not_in_trace_uses_child_metadata() {
    // Parent ID references a span that doesn't exist in the trace
    let mut events = Vec::new();
    for i in 0..25 {
        let mut child = make_sql_event(
            "trace-1",
            &format!("child-{i}"),
            &format!("SELECT * FROM t WHERE id = {i}"),
            &format!("2025-07-10T14:32:01.{:03}Z", (i + 1) * 10),
        );
        child.parent_span_id = Some("nonexistent-parent".to_string());
        events.push(child);
    }
    let trace = make_trace(events);
    let findings = detect_fanout(&trace, 20);

    assert_eq!(findings.len(), 1);
    // Service and endpoint should come from the first child span
    assert_eq!(findings[0].service, "order-svc");
}

#[test]
fn no_finding_without_parent_ids() {
    // Events without parent_span_id set
    let events: Vec<_> = (1..=10)
        .map(|i| {
            make_sql_event(
                "trace-1",
                &format!("span-{i}"),
                &format!("SELECT * FROM t WHERE id = {i}"),
                &format!("2025-07-10T14:32:01.{:03}Z", i * 50),
            )
        })
        .collect();
    let trace = make_trace(events);
    let findings = detect_fanout(&trace, 5);

    assert!(findings.is_empty());
}

//! Connection pool saturation detection.

use sentinel_core::detect::{FindingType, Severity};
use sentinel_core::detect::pool_saturation::{compute_peak_concurrency, detect_pool_saturation, detect_pool_saturation_with_spans, peak_span_ids};
use sentinel_core::event::{EventSource, EventType, GroupingAttribute, NormalizedEvent, SpanEvent, Trace};

/// A span as it is recorded, with the trace it belongs to.
#[derive(Debug, Clone)]
struct SpanRecord {
    trace_id: String,
    span: SpanEvent,
}

impl std::ops::Deref for SpanRecord {
    type Target = SpanEvent;

    fn deref(&self) -> &SpanEvent {
        &self.span
    }
}

impl std::ops::DerefMut for SpanRecord {
    fn deref_mut(&mut self) -> &mut SpanEvent {
        &mut self.span
    }
}

fn recorded_span(
    trace_id: &str,
    span_id: &str,
    event_type: EventType,
    operation: &str,
    target: &str,
    timestamp: &str,
    duration_us: u64,
) -> SpanRecord {
    SpanRecord {
        trace_id: trace_id.to_string(),
        span: SpanEvent {
            timestamp: timestamp.to_string(),
            span_id: span_id.to_string(),
            parent_span_id: None,
            service: "order-svc".to_string(),
            event_type,
            operation: operation.to_string(),
            target: target.to_string(),
            duration_us,
            source: EventSource {
                endpoint: "POST /api/orders/{id}/submit".to_string(),
                method: "OrderService::create_order".to_string(),
            },
            code_function: None,
            code_filepath: None,
            code_lineno: None,
            code_namespace: None,
            instrumentation_scopes: Vec::new(),
            grouping: Vec::new(),
        },
    }
}

fn make_sql_event_with_duration(
    trace_id: &str,
    span_id: &str,
    target: &str,
    timestamp: &str,
    duration_us: u64,
) -> SpanRecord {
    recorded_span(trace_id, span_id, EventType::Sql, "SELECT", target, timestamp, duration_us)
}

fn make_http_event_with_duration(
    trace_id: &str,
    span_id: &str,
    target: &str,
    timestamp: &str,
    duration_us: u64,
) -> SpanRecord {
    recorded_span(trace_id, span_id, EventType::HttpOut, "GET", target, timestamp, duration_us)
}

fn grouping(key: &str, value: &str) -> Vec<GroupingAttribute> {
    vec![GroupingAttribute { key: key.to_string(), value: value.to_string() }]
}

fn split_grouping_keys_same_value(events: &mut [SpanRecord]) {
    let half = events.len() / 2;
    for (i, event) in events.iter_mut().enumerate() {
        let key = if i < half { "tenant.id" } else { "k8s.namespace.name" };
        event.grouping = grouping(key, "prod");
    }
}

/// Replace the literals of a statement by `?`.
fn normalize_sql(statement: &str) -> (String, Vec<String>) {
    let chars: Vec<char> = statement.chars().collect();
    let mut template = String::new();
    let mut params = Vec::new();
    let mut i = 0;
    while i < chars.len() {
        let c = chars[i];
        let in_word = i > 0 && (chars[i - 1].is_alphanumeric() || chars[i - 1] == '_');
        if c == '\'' {
            let end = (i + 1..chars.len()).find(|&k| chars[k] == '\'').unwrap_or(chars.len());
            params.push(chars[i + 1..end].iter().collect());
            template.push('?');
            i = end + 1;
        } else if c.is_ascii_digit() && !in_word {
            let end = (i..chars.len()).find(|&k| !chars[k].is_ascii_digit()).unwrap_or(chars.len());
            params.push(chars[i..end].iter().collect());
            template.push('?');
            i = end;
        } else {
            template.push(c);
            i += 1;
        }
    }
    (template, params)
}

/// Replace the numeric segments of a URL's path by `{id}`.
fn normalize_http(method: &str, url: &str) -> (String, Vec<String>) {
    let rest = url.split("://").nth(1).unwrap_or(url);
    let path = rest.find('/').map_or("/", |at| &rest[at..]);
    let mut params = Vec::new();
    let segments: Vec<String> = path
        .split('/')
        .map(|s| {
            if !s.is_empty() && s.chars().all(|c| c.is_ascii_digit()) {
                params.push(s.to_string());
                "{id}".to_string()
            } else {
                s.to_string()
            }
        })
        .collect();
    (format!("{method} {}", segments.join("/")), params)
}

fn normalize_one(event: SpanRecord) -> NormalizedEvent {
    let (template, params) = match event.event_type {
        EventType::Sql => normalize_sql(&event.target),
        EventType::HttpOut => normalize_http(&event.operation, &event.target),
    };
    let session_command = event.target.contains("set_config(");
    NormalizedEvent { event: event.span, template, params, session_command }
}

fn make_trace(events: Vec<SpanRecord>) -> Trace {
    Trace {
        trace_id: events.first().map(|e| e.trace_id.clone()).unwrap_or_default(),
        spans: events.into_iter().map(normalize_one).collect(),
    }
}



/// Create overlapping SQL spans: all start at the same time with given duration.
fn make_concurrent_sql(
    trace_id: &str,
    service: &str,
    count: usize,
    duration_us: u64,
) -> Vec<SpanRecord> {
    (0..count)
        .map(|i| {
            let mut ev = make_sql_event_with_duration(
                trace_id,
                &format!("span-{i}"),
                &format!("SELECT * FROM t{i} WHERE id = {i}"),
                "2025-07-10T14:32:01.000Z",
                duration_us,
            );
            ev.service = service.to_string();
            ev
        })
        .collect()
}

#[test]
fn detects_concurrent_sql_spans() {
    let events = make_concurrent_sql("trace-1", "order-svc", 12, 200_000);
    let trace = make_trace(events);
    let findings = detect_pool_saturation(&trace, 10);

    assert_eq!(findings.len(), 1);
    assert_eq!(findings[0].finding_type, FindingType::PoolSaturation);
    assert_eq!(findings[0].severity, Severity::Warning);
    assert_eq!(findings[0].pattern.occurrences, 12); // peak concurrent
    assert_eq!(findings[0].pattern.distinct_params, 12); // total SQL
}

#[test]
fn pool_saturation_no_finding_below_threshold() {
    let events = make_concurrent_sql("trace-1", "order-svc", 5, 200_000);
    let trace = make_trace(events);
    let findings = detect_pool_saturation(&trace, 10);
    assert!(findings.is_empty());
}

#[test]
fn sequential_spans_peak_one() {
    // 10 non-overlapping SQL spans: each 100ms, starting 100ms apart
    let events: Vec<_> = (0..10)
        .map(|i| {
            make_sql_event_with_duration(
                "trace-1",
                &format!("span-{i}"),
                &format!("SELECT * FROM t WHERE id = {i}"),
                &format!("2025-07-10T14:32:01.{:03}Z", i * 100),
                100_000, // 100ms
            )
        })
        .collect();
    let trace = make_trace(events);
    let findings = detect_pool_saturation(&trace, 2);
    assert!(findings.is_empty(), "sequential spans should have peak=1");
}

#[test]
fn partial_overlap() {
    // Spans: [0-100ms, 50-150ms, 120-220ms, 200-300ms]
    // Peak concurrency = 2 (at 50-100ms: spans 0 and 1 overlap)
    let events = vec![
        make_sql_event_with_duration(
            "trace-1",
            "s0",
            "SELECT 1",
            "2025-07-10T14:32:01.000Z",
            100_000,
        ),
        make_sql_event_with_duration(
            "trace-1",
            "s1",
            "SELECT 2",
            "2025-07-10T14:32:01.050Z",
            100_000,
        ),
        make_sql_event_with_duration(
            "trace-1",
            "s2",
            "SELECT 3",
            "2025-07-10T14:32:01.120Z",
            100_000,
        ),
        make_sql_event_with_duration(
            "trace-1",
            "s3",
            "SELECT 4",
            "2025-07-10T14:32:01.200Z",
            100_000,
        ),
    ];
    let trace = make_trace(events);

    // With threshold 2: should trigger (peak=2)
    let findings = detect_pool_saturation(&trace, 2);
    assert_eq!(findings.len(), 1);
    assert_eq!(findings[0].pattern.occurrences, 2);

    // With threshold 3: should not trigger
    let findings = detect_pool_saturation(&trace, 3);
    assert!(findings.is_empty());
}

#[test]
fn evidence_names_only_the_first_peak_concurrency_set() {
    let events = vec![
        make_sql_event_with_duration(
            "trace-1",
            "s0",
            "SELECT 1",
            "2025-07-10T14:32:01.000Z",
            100_000,
        ),
        make_sql_event_with_duration(
            "trace-1",
            "s1",
            "SELECT 2",
            "2025-07-10T14:32:01.050Z",
            100_000,
        ),
        make_sql_event_with_duration(
            "trace-1",
            "s2",
            "SELECT 3",
            "2025-07-10T14:32:01.120Z",
            100_000,
        ),
    ];
    let trace = make_trace(events);

    let found = detect_pool_saturation_with_spans(&trace, 2);
    assert_eq!(found.len(), 1);
    assert_eq!(found[0].1, vec!["s0", "s1"]);
}

#[test]
fn different_services_counted_separately() {
    let mut events = make_concurrent_sql("trace-1", "svc-a", 12, 200_000);
    let mut svc_b = make_concurrent_sql("trace-1", "svc-b", 12, 200_000);
    // Fix span IDs to avoid collision
    for (i, ev) in svc_b.iter_mut().enumerate() {
        ev.span_id = format!("span-b-{i}");
    }
    events.extend(svc_b);

    let trace = make_trace(events);
    let findings = detect_pool_saturation(&trace, 10);
    assert_eq!(findings.len(), 2);
}

#[test]
fn equal_grouping_values_from_different_keys_do_not_share_one_pool() {
    let mut events = make_concurrent_sql("trace-1", "svc", 6, 200_000);
    split_grouping_keys_same_value(&mut events);
    let trace = make_trace(events);

    let findings = detect_pool_saturation(&trace, 4);

    assert!(
        findings.is_empty(),
        "each grouping peaks at three connections: {findings:#?}"
    );
}

/// Two sweeps over the same events: if the tie-break ordering drifts in
/// one, the HTML evidence set and the reported peak silently disagree.
#[test]
fn both_sweeps_agree_on_the_peak() {
    // Overlapping, nested, and back-to-back spans all in one trace, so
    // the equal-timestamp tie-break is exercised.
    let starts = [
        ("2025-07-10T14:32:01.000Z", 5_000_u64),
        ("2025-07-10T14:32:01.000Z", 1_000),
        ("2025-07-10T14:32:01.001Z", 3_000),
        ("2025-07-10T14:32:01.002Z", 500),
        ("2025-07-10T14:32:01.006Z", 2_000),
        // Zero duration: its end sorts before its own start.
        ("2025-07-10T14:32:01.001Z", 0),
        ("2025-07-10T14:32:01.003Z", 0),
    ];
    let events: Vec<_> = starts
        .iter()
        .enumerate()
        .map(|(i, (ts, dur))| {
            make_sql_event_with_duration("t1", &format!("s{i}"), "SELECT 1", ts, *dur)
        })
        .collect();
    let trace = make_trace(events);
    let indices: Vec<usize> = (0..trace.spans.len()).collect();

    assert_eq!(
        peak_span_ids(&trace, &indices).len(),
        compute_peak_concurrency(&trace, &indices)
    );
}

#[test]
fn http_events_ignored() {
    let events: Vec<_> = (0..15)
        .map(|i| {
            make_http_event_with_duration(
                "trace-1",
                &format!("span-{i}"),
                &format!("http://svc/api/{i}"),
                "2025-07-10T14:32:01.000Z",
                200_000,
            )
        })
        .collect();
    let trace = make_trace(events);
    let findings = detect_pool_saturation(&trace, 10);
    assert!(findings.is_empty());
}

//! Slow operation detection.

use sentinel_core::detect::{FindingType, Severity};
use sentinel_core::detect::slow::{detect_slow, detect_slow_cross_trace, percentile_index};
use sentinel_core::event::{EventSource, EventType, GroupingAttribute, NormalizedEvent, SpanEvent, Trace};

/// A span as it is recorded, with the trace it belongs to.
#[derive(Debug, Clone)]
struct SpanRecord {
    trace_id: String,
    span: SpanEvent,
}

impl std::ops::Deref for SpanRecord {
    type Target = SpanEvent;

    fn deref(&self) -> &SpanEvent {
        &self.span
    }
}

impl std::ops::DerefMut for SpanRecord {
    fn deref_mut(&mut self) -> &mut SpanEvent {
        &mut self.span
    }
}

fn recorded_span(
    trace_id: &str,
    span_id: &str,
    event_type: EventType,
    operation: &str,
    target: &str,
    timestamp: &str,
    duration_us: u64,
) -> SpanRecord {
    SpanRecord {
        trace_id: trace_id.to_string(),
        span: SpanEvent {
            timestamp: timestamp.to_string(),
            span_id: span_id.to_string(),
            parent_span_id: None,
            service: "order-svc".to_string(),
            event_type,
            operation: operation.to_string(),
            target: target.to_string(),
            duration_us,
            source: EventSource {
                endpoint: "POST /api/orders/{id}/submit".to_string(),
                method: "OrderService::create_order".to_string(),
            },
            code_function: None,
            code_filepath: None,
            code_lineno: None,
            code_namespace: None,
            instrumentation_scopes: Vec::new(),
            grouping: Vec::new(),
        },
    }
}

fn make_sql_event_with_duration(
    trace_id: &str,
    span_id: &str,
    target: &str,
    timestamp: &str,
    duration_us: u64,
) -> SpanRecord {
    recorded_span(trace_id, span_id, EventType::Sql, "SELECT", target, timestamp, duration_us)
}

fn make_http_event_with_duration(
    trace_id: &str,
    span_id: &str,
    target: &str,
    timestamp: &str,
    duration_us: u64,
) -> SpanRecord {
    recorded_span(trace_id, span_id, EventType::HttpOut, "GET", target, timestamp, duration_us)
}

fn grouping(key: &str, value: &str) -> Vec<GroupingAttribute> {
    vec![GroupingAttribute { key: key.to_string(), value: value.to_string() }]
}

/// Replace the literals of a statement by `?`.
fn normalize_sql(statement: &str) -> (String, Vec<String>) {
    let chars: Vec<char> = statement.chars().collect();
    let mut template = String::new();
    let mut params = Vec::new();
    let mut i = 0;
    while i < chars.len() {
        let c = chars[i];
        let in_word = i > 0 && (chars[i - 1].is_alphanumeric() || chars[i - 1] == '_');
        if c == '\'' {
            let end = (i + 1..chars.len()).find(|&k| chars[k] == '\'').unwrap_or(chars.len());
            params.push(chars[i + 1..end].iter().collect());
            template.push('?');
            i = end + 1;
        } else if c.is_ascii_digit() && !in_word {
            let end = (i..chars.len()).find(|&k| !chars[k].is_ascii_digit()).unwrap_or(chars.len());
            params.push(chars[i..end].iter().collect());
            template.push('?');
            i = end;
        } else {
            template.push(c);
            i += 1;
        }
    }
    (template, params)
}

/// Replace the numeric segments of a URL's path by `{id}`.
fn normalize_http(method: &str, url: &str) -> (String, Vec<String>) {
    let rest = url.split("://").nth(1).unwrap_or(url);
    let path = rest.find('/').map_or("/", |at| &rest[at..]);
    let mut params = Vec::new();
    let segments: Vec<String> = path
        .split('/')
        .map(|s| {
            if !s.is_empty() && s.chars().all(|c| c.is_ascii_digit()) {
                params.push(s.to_string());
                "{id}".to_string()
            } else {
                s.to_string()
            }
        })
        .collect();
    (format!("{method} {}", segments.join("/")), params)
}

fn normalize_one(event: SpanRecord) -> NormalizedEvent {
    let (template, params) = match event.event_type {
        EventType::Sql => normalize_sql(&event.target),
        EventType::HttpOut => normalize_http(&event.operation, &event.target),
    };
    let session_command = event.target.contains("set_config(");
    NormalizedEvent { event: event.span, template, params, session_command }
}

fn make_trace(events: Vec<SpanRecord>) -> Trace {
    Trace {
        trace_id: events.first().map(|e| e.trace_id.clone()).unwrap_or_default(),
        spans: events.into_iter().map(normalize_one).collect(),
    }
}



#[test]
fn detects_slow_sql() {
    let events = vec![
        make_sql_event_with_duration(
            "t1",
            "s1",
            "SELECT * FROM t WHERE id = 1",
            "2025-07-10T14:32:01.000Z",
            600_000,
        ),
        make_sql_event_with_duration(
            "t1",
            "s2",
            "SELECT * FROM t WHERE id = 2",
            "2025-07-10T14:32:01.050Z",
            700_000,
        ),
        make_sql_event_with_duration(
            "t1",
            "s3",
            "SELECT * FROM t WHERE id = 3",
            "2025-07-10T14:32:01.100Z",
            650_000,
        ),
    ];
    let trace = make_trace(events);
    let findings = detect_slow(&trace, 500, 3);

    assert_eq!(findings.len(), 1);
    assert_eq!(findings[0].finding_type, FindingType::SlowSql);
    assert_eq!(findings[0].severity, Severity::Warning);
    assert_eq!(findings[0].pattern.occurrences, 3);
    assert!(findings[0].suggestion.contains("index"));
}

#[test]
fn below_min_occurrences_no_finding() {
    let events = vec![
        make_sql_event_with_duration(
            "t1",
            "s1",
            "SELECT * FROM t WHERE id = 1",
            "2025-07-10T14:32:01.000Z",
            600_000,
        ),
        make_sql_event_with_duration(
            "t1",
            "s2",
            "SELECT * FROM t WHERE id = 2",
            "2025-07-10T14:32:01.050Z",
            700_000,
        ),
    ];
    let trace = make_trace(events);
    let findings = detect_slow(&trace, 500, 3);
    assert!(findings.is_empty());
}

#[test]
fn below_threshold_duration_no_finding() {
    let events = vec![
        make_sql_event_with_duration(
            "t1",
            "s1",
            "SELECT * FROM t WHERE id = 1",
            "2025-07-10T14:32:01.000Z",
            400_000,
        ),
        make_sql_event_with_duration(
            "t1",
            "s2",
            "SELECT * FROM t WHERE id = 2",
            "2025-07-10T14:32:01.050Z",
            300_000,
        ),
        make_sql_event_with_duration(
            "t1",
            "s3",
            "SELECT * FROM t WHERE id = 3",
            "2025-07-10T14:32:01.100Z",
            450_000,
        ),
    ];
    let trace = make_trace(events);
    let findings = detect_slow(&trace, 500, 3);
    assert!(findings.is_empty());
}

#[test]
fn critical_severity_5x_threshold() {
    let events = vec![
        make_sql_event_with_duration(
            "t1",
            "s1",
            "SELECT * FROM t WHERE id = 1",
            "2025-07-10T14:32:01.000Z",
            600_000,
        ),
        make_sql_event_with_duration(
            "t1",
            "s2",
            "SELECT * FROM t WHERE id = 2",
            "2025-07-10T14:32:01.050Z",
            700_000,
        ),
        make_sql_event_with_duration(
            "t1",
            "s3",
            "SELECT * FROM t WHERE id = 3",
            "2025-07-10T14:32:01.100Z",
            2_600_000, // > 5 * 500ms = 2500ms
        ),
    ];
    let trace = make_trace(events);
    let findings = detect_slow(&trace, 500, 3);

    assert_eq!(findings.len(), 1);
    assert_eq!(findings[0].severity, Severity::Critical);
}

#[test]
fn warning_severity_above_threshold() {
    let events = vec![
        make_sql_event_with_duration(
            "t1",
            "s1",
            "SELECT * FROM t WHERE id = 1",
            "2025-07-10T14:32:01.000Z",
            600_000,
        ),
        make_sql_event_with_duration(
            "t1",
            "s2",
            "SELECT * FROM t WHERE id = 2",
            "2025-07-10T14:32:01.050Z",
            700_000,
        ),
        make_sql_event_with_duration(
            "t1",
            "s3",
            "SELECT * FROM t WHERE id = 3",
            "2025-07-10T14:32:01.100Z",
            800_000, // < 5 * 500ms
        ),
    ];
    let trace = make_trace(events);
    let findings = detect_slow(&trace, 500, 3);

    assert_eq!(findings.len(), 1);
    assert_eq!(findings[0].severity, Severity::Warning);
}

#[test]
fn mixed_slow_and_fast_same_template() {
    // 5 events with same template, but only 3 are slow
    let events = vec![
        make_sql_event_with_duration(
            "t1",
            "s1",
            "SELECT * FROM t WHERE id = 1",
            "2025-07-10T14:32:01.000Z",
            600_000,
        ),
        make_sql_event_with_duration(
            "t1",
            "s2",
            "SELECT * FROM t WHERE id = 2",
            "2025-07-10T14:32:01.050Z",
            100_000, // fast
        ),
        make_sql_event_with_duration(
            "t1",
            "s3",
            "SELECT * FROM t WHERE id = 3",
            "2025-07-10T14:32:01.100Z",
            700_000,
        ),
        make_sql_event_with_duration(
            "t1",
            "s4",
            "SELECT * FROM t WHERE id = 4",
            "2025-07-10T14:32:01.150Z",
            200_000, // fast
        ),
        make_sql_event_with_duration(
            "t1",
            "s5",
            "SELECT * FROM t WHERE id = 5",
            "2025-07-10T14:32:01.200Z",
            650_000,
        ),
    ];
    let trace = make_trace(events);
    let findings = detect_slow(&trace, 500, 3);

    assert_eq!(findings.len(), 1);
    assert_eq!(findings[0].pattern.occurrences, 3); // only the slow ones
}

#[test]
fn detects_slow_http() {
    let events = vec![
        make_http_event_with_duration(
            "t1",
            "s1",
            "http://svc:5000/api/data/1",
            "2025-07-10T14:32:01.000Z",
            600_000,
        ),
        make_http_event_with_duration(
            "t1",
            "s2",
            "http://svc:5000/api/data/2",
            "2025-07-10T14:32:01.050Z",
            700_000,
        ),
        make_http_event_with_duration(
            "t1",
            "s3",
            "http://svc:5000/api/data/3",
            "2025-07-10T14:32:01.100Z",
            650_000,
        ),
    ];
    let trace = make_trace(events);
    let findings = detect_slow(&trace, 500, 3);

    assert_eq!(findings.len(), 1);
    assert_eq!(findings[0].finding_type, FindingType::SlowHttp);
    assert!(findings[0].suggestion.contains("caching"));
}

#[test]
fn different_templates_separate_findings() {
    let events = vec![
        // Template A: 3 slow
        make_sql_event_with_duration(
            "t1",
            "s1",
            "SELECT * FROM t WHERE id = 1",
            "2025-07-10T14:32:01.000Z",
            600_000,
        ),
        make_sql_event_with_duration(
            "t1",
            "s2",
            "SELECT * FROM t WHERE id = 2",
            "2025-07-10T14:32:01.050Z",
            700_000,
        ),
        make_sql_event_with_duration(
            "t1",
            "s3",
            "SELECT * FROM t WHERE id = 3",
            "2025-07-10T14:32:01.100Z",
            650_000,
        ),
        // Template B: 3 slow
        make_sql_event_with_duration(
            "t1",
            "s4",
            "SELECT * FROM orders WHERE user_id = 1",
            "2025-07-10T14:32:01.150Z",
            800_000,
        ),
        make_sql_event_with_duration(
            "t1",
            "s5",
            "SELECT * FROM orders WHERE user_id = 2",
            "2025-07-10T14:32:01.200Z",
            900_000,
        ),
        make_sql_event_with_duration(
            "t1",
            "s6",
            "SELECT * FROM orders WHERE user_id = 3",
            "2025-07-10T14:32:01.250Z",
            850_000,
        ),
    ];
    let trace = make_trace(events);
    let findings = detect_slow(&trace, 500, 3);

    assert_eq!(findings.len(), 2);
}

#[test]
fn empty_trace_no_findings() {
    let trace = Trace {
        trace_id: "t1".to_string(),
        spans: vec![],
    };
    let findings = detect_slow(&trace, 500, 3);
    assert!(findings.is_empty());
}

#[test]
fn cross_trace_detects_slow_across_traces() {
    // 3 traces, each with 1 slow query of the same template
    // Per-trace: only 1 occurrence each (below min_occurrences=3)
    // Cross-trace: 3 occurrences total (meets threshold)
    let traces: Vec<_> = (1..=3)
        .map(|i| {
            let events = vec![make_sql_event_with_duration(
                &format!("trace-{i}"),
                &format!("span-{i}"),
                &format!("SELECT * FROM big_table WHERE id = {i}"),
                &format!("2025-07-10T14:32:0{i}.000Z"),
                600_000, // 600ms, above 500ms threshold
            )];
            make_trace(events)
        })
        .collect();

    let findings = detect_slow_cross_trace(&traces, 500, 3);
    assert_eq!(findings.len(), 1);
    assert_eq!(findings[0].finding_type, FindingType::SlowSql);
    assert_eq!(findings[0].pattern.occurrences, 3);
    assert!(findings[0].suggestion.contains("Cross-trace"));
    assert!(findings[0].suggestion.contains("p50="));
}

#[test]
fn cross_trace_below_threshold_no_finding() {
    let traces: Vec<_> = (1..=3)
        .map(|i| {
            let events = vec![make_sql_event_with_duration(
                &format!("trace-{i}"),
                &format!("span-{i}"),
                &format!("SELECT * FROM t WHERE id = {i}"),
                &format!("2025-07-10T14:32:0{i}.000Z"),
                300_000, // 300ms, below 500ms threshold
            )];
            make_trace(events)
        })
        .collect();

    let findings = detect_slow_cross_trace(&traces, 500, 3);
    assert!(findings.is_empty());
}

#[test]
fn cross_trace_critical_severity_5x() {
    let traces: Vec<_> = (1..=3)
        .map(|i| {
            let dur = if i == 3 { 3_000_000 } else { 600_000 }; // 3rd is 3000ms > 5x500ms
            let events = vec![make_sql_event_with_duration(
                &format!("trace-{i}"),
                &format!("span-{i}"),
                &format!("SELECT * FROM t WHERE id = {i}"),
                &format!("2025-07-10T14:32:0{i}.000Z"),
                dur,
            )];
            make_trace(events)
        })
        .collect();

    let findings = detect_slow_cross_trace(&traces, 500, 3);
    assert_eq!(findings.len(), 1);
    assert_eq!(findings[0].severity, Severity::Critical);
}

#[test]
fn percentile_index_small_n() {
    // For n=3, p99 should return the max element (index 2), not the median
    assert_eq!(percentile_index(3, 99), 2);
    assert_eq!(percentile_index(3, 95), 2);
    assert_eq!(percentile_index(3, 50), 1);
    // Edge cases
    assert_eq!(percentile_index(1, 99), 0);
    assert_eq!(percentile_index(2, 99), 1);
    assert_eq!(percentile_index(100, 99), 98);
    assert_eq!(percentile_index(100, 50), 49);
}

#[test]
fn cross_trace_p99_is_max_for_small_n() {
    // 3 traces, 1 slow span each: durations 600ms, 800ms, 1000ms
    // p99 with n=3 should be 1000ms (the max), not 800ms (the median)
    let traces: Vec<_> = vec![(1, 600_000u64), (2, 800_000), (3, 1_000_000)]
        .into_iter()
        .map(|(i, dur)| {
            let events = vec![make_sql_event_with_duration(
                &format!("trace-{i}"),
                &format!("span-{i}"),
                &format!("SELECT * FROM t WHERE id = {i}"),
                &format!("2025-07-10T14:32:0{i}.000Z"),
                dur,
            )];
            make_trace(events)
        })
        .collect();

    let findings = detect_slow_cross_trace(&traces, 500, 3);
    assert_eq!(findings.len(), 1);
    // The suggestion should include p99=1000.0ms (the max), not 800.0ms
    assert!(
        findings[0].suggestion.contains("p99=1000.0ms"),
        "p99 should be max for n=3, got: {}",
        findings[0].suggestion
    );
}

#[test]
fn cross_trace_http_slow_uses_http_label() {
    let traces: Vec<Trace> = (1..=3)
        .map(|t| {
            let events = vec![make_http_event_with_duration(
                &format!("trace-{t}"),
                "span-1",
                "http://user-svc:5000/api/users/1",
                "2025-07-10T14:32:01.000Z",
                600_000,
            )];
            make_trace(events)
        })
        .collect();

    let findings = detect_slow_cross_trace(&traces, 500, 3);
    assert_eq!(findings.len(), 1);
    assert!(
        findings[0]
            .suggestion
            .contains("caching or optimizing endpoint"),
        "HTTP slow should suggest caching, got: {}",
        findings[0].suggestion
    );
}

#[test]
fn cross_trace_skipped_when_p99_below_threshold() {
    // All spans just above threshold individually but we set threshold very high
    let traces: Vec<Trace> = (1..=3)
        .map(|t| {
            let events = vec![make_sql_event_with_duration(
                &format!("trace-{t}"),
                "span-1",
                "SELECT * FROM t WHERE id = 1",
                "2025-07-10T14:32:01.000Z",
                100_000, // 100ms, well below 500ms threshold
            )];
            make_trace(events)
        })
        .collect();

    let findings = detect_slow_cross_trace(&traces, 500, 3);
    assert!(
        findings.is_empty(),
        "should produce no findings when p99 < threshold"
    );
}

// -- Boundary condition tests --

#[test]
fn exactly_at_threshold_not_slow() {
    // duration_us == threshold_ms * 1000 exactly → NOT slow (uses strict >)
    let events: Vec<_> = (0..3)
        .map(|i| {
            make_sql_event_with_duration(
                "t1",
                &format!("s{i}"),
                "SELECT * FROM t WHERE id = 1",
                "2025-07-10T14:32:01.000Z",
                500_000, // exactly 500ms threshold
            )
        })
        .collect();
    let trace = make_trace(events);
    let findings = detect_slow(&trace, 500, 3);
    assert!(
        findings.is_empty(),
        "exactly at threshold should not be flagged"
    );
}

#[test]
fn one_microsecond_above_threshold_is_slow() {
    let events: Vec<_> = (0..3)
        .map(|i| {
            make_sql_event_with_duration(
                "t1",
                &format!("s{i}"),
                "SELECT * FROM t WHERE id = 1",
                "2025-07-10T14:32:01.000Z",
                500_001, // 1µs above threshold
            )
        })
        .collect();
    let trace = make_trace(events);
    let findings = detect_slow(&trace, 500, 3);
    assert_eq!(findings.len(), 1);
    assert_eq!(findings[0].severity, Severity::Warning);
}

#[test]
fn exactly_5x_threshold_is_warning_not_critical() {
    // 5x threshold exactly → still warning (uses strict >)
    let events: Vec<_> = (0..3)
        .map(|i| {
            make_sql_event_with_duration(
                "t1",
                &format!("s{i}"),
                "SELECT * FROM t WHERE id = 1",
                "2025-07-10T14:32:01.000Z",
                2_500_000, // exactly 5x 500ms
            )
        })
        .collect();
    let trace = make_trace(events);
    let findings = detect_slow(&trace, 500, 3);
    assert_eq!(findings.len(), 1);
    assert_eq!(findings[0].severity, Severity::Warning);
}

#[test]
fn above_5x_threshold_is_critical() {
    let events: Vec<_> = (0..3)
        .map(|i| {
            make_sql_event_with_duration(
                "t1",
                &format!("s{i}"),
                "SELECT * FROM t WHERE id = 1",
                "2025-07-10T14:32:01.000Z",
                2_500_001, // 1µs above 5x
            )
        })
        .collect();
    let trace = make_trace(events);
    let findings = detect_slow(&trace, 500, 3);
    assert_eq!(findings.len(), 1);
    assert_eq!(findings[0].severity, Severity::Critical);
}

#[test]
fn min_occurrences_one() {
    let events = vec![make_sql_event_with_duration(
        "t1",
        "s1",
        "SELECT * FROM t WHERE id = 1",
        "2025-07-10T14:32:01.000Z",
        600_000,
    )];
    let trace = make_trace(events);
    let findings = detect_slow(&trace, 500, 1);
    assert_eq!(findings.len(), 1);
}

#[test]
fn empty_trace_no_slow_findings() {
    let trace = Trace {
        trace_id: "empty".to_string(),
        spans: vec![],
    };
    let findings = detect_slow(&trace, 500, 3);
    assert!(findings.is_empty());
}

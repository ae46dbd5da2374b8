//! The detection stage as a whole.

use sentinel_core::detect::{Confidence, DetectConfig, FindingType, Severity, detect};
use sentinel_core::detect::sanitizer_aware::SanitizerAwareMode;
use sentinel_core::event::{EventSource, EventType, GroupingAttribute, NormalizedEvent, SpanEvent, Trace};

/// A span as it is recorded, with the trace it belongs to.
#[derive(Debug, Clone)]
struct SpanRecord {
    trace_id: String,
    span: SpanEvent,
}

impl std::ops::Deref for SpanRecord {
    type Target = SpanEvent;

    fn deref(&self) -> &SpanEvent {
        &self.span
    }
}

impl std::ops::DerefMut for SpanRecord {
    fn deref_mut(&mut self) -> &mut SpanEvent {
        &mut self.span
    }
}

fn recorded_span(
    trace_id: &str,
    span_id: &str,
    event_type: EventType,
    operation: &str,
    target: &str,
    timestamp: &str,
    duration_us: u64,
) -> SpanRecord {
    SpanRecord {
        trace_id: trace_id.to_string(),
        span: SpanEvent {
            timestamp: timestamp.to_string(),
            span_id: span_id.to_string(),
            parent_span_id: None,
            service: "order-svc".to_string(),
            event_type,
            operation: operation.to_string(),
            target: target.to_string(),
            duration_us,
            source: EventSource {
                endpoint: "POST /api/orders/{id}/submit".to_string(),
                method: "OrderService::create_order".to_string(),
            },
            code_function: None,
            code_filepath: None,
            code_lineno: None,
            code_namespace: None,
            instrumentation_scopes: Vec::new(),
            grouping: Vec::new(),
        },
    }
}

fn make_sql_event(trace_id: &str, span_id: &str, target: &str, timestamp: &str) -> SpanRecord {
    make_sql_event_with_duration(trace_id, span_id, target, timestamp, 800)
}

fn make_sql_event_with_duration(
    trace_id: &str,
    span_id: &str,
    target: &str,
    timestamp: &str,
    duration_us: u64,
) -> SpanRecord {
    recorded_span(trace_id, span_id, EventType::Sql, "SELECT", target, timestamp, duration_us)
}

fn grouping(key: &str, value: &str) -> Vec<GroupingAttribute> {
    vec![GroupingAttribute { key: key.to_string(), value: value.to_string() }]
}

/// Replace the literals of a statement by `?`.
fn normalize_sql(statement: &str) -> (String, Vec<String>) {
    let chars: Vec<char> = statement.chars().collect();
    let mut template = String::new();
    let mut params = Vec::new();
    let mut i = 0;
    while i < chars.len() {
        let c = chars[i];
        let in_word = i > 0 && (chars[i - 1].is_alphanumeric() || chars[i - 1] == '_');
        if c == '\'' {
            let end = (i + 1..chars.len()).find(|&k| chars[k] == '\'').unwrap_or(chars.len());
            params.push(chars[i + 1..end].iter().collect());
            template.push('?');
            i = end + 1;
        } else if c.is_ascii_digit() && !in_word {
            let end = (i..chars.len()).find(|&k| !chars[k].is_ascii_digit()).unwrap_or(chars.len());
            params.push(chars[i..end].iter().collect());
            template.push('?');
            i = end;
        } else {
            template.push(c);
            i += 1;
        }
    }
    (template, params)
}

/// Replace the numeric segments of a URL's path by `{id}`.
fn normalize_http(method: &str, url: &str) -> (String, Vec<String>) {
    let rest = url.split("://").nth(1).unwrap_or(url);
    let path = rest.find('/').map_or("/", |at| &rest[at..]);
    let mut params = Vec::new();
    let segments: Vec<String> = path
        .split('/')
        .map(|s| {
            if !s.is_empty() && s.chars().all(|c| c.is_ascii_digit()) {
                params.push(s.to_string());
                "{id}".to_string()
            } else {
                s.to_string()
            }
        })
        .collect();
    (format!("{method} {}", segments.join("/")), params)
}

fn normalize_one(event: SpanRecord) -> NormalizedEvent {
    let (template, params) = match event.event_type {
        EventType::Sql => normalize_sql(&event.target),
        EventType::HttpOut => normalize_http(&event.operation, &event.target),
    };
    let session_command = event.target.contains("set_config(");
    NormalizedEvent { event: event.span, template, params, session_command }
}

fn make_trace(events: Vec<SpanRecord>) -> Trace {
    Trace {
        trace_id: events.first().map(|e| e.trace_id.clone()).unwrap_or_default(),
        spans: events.into_iter().map(normalize_one).collect(),
    }
}



fn default_config() -> DetectConfig {
    DetectConfig {
        n_plus_one_threshold: 5,
        window_ms: 500,
        slow_threshold_ms: 500,
        slow_min_occurrences: 3,
        max_fanout: 20,
        chatty_service_min_calls: 15,
        pool_saturation_concurrent_threshold: 10,
        serialized_min_sequential: 3,
        sanitizer_aware_classification: SanitizerAwareMode::default(),
    }
}

#[test]
fn empty_traces_produce_no_findings() {
    let findings = detect(&[], &default_config());
    assert!(findings.is_empty());
}

// --- Confidence field tests ---

#[test]
fn confidence_default_is_ci_batch() {
    assert_eq!(Confidence::default(), Confidence::CiBatch);
}

#[test]
fn confidence_as_str_matches_serialization() {
    assert_eq!(Confidence::CiBatch.as_str(), "ci_batch");
    assert_eq!(Confidence::DaemonStaging.as_str(), "daemon_staging");
    assert_eq!(Confidence::DaemonProduction.as_str(), "daemon_production");
}

#[test]
fn confidence_sarif_rank_increases_with_confidence() {
    // Ordering must be strictly ascending so SARIF consumers that sort
    // by rank produce the expected "production > staging > CI" order.
    assert!(Confidence::CiBatch.sarif_rank() < Confidence::DaemonStaging.sarif_rank());
    assert!(Confidence::DaemonStaging.sarif_rank() < Confidence::DaemonProduction.sarif_rank());
    assert_eq!(Confidence::CiBatch.sarif_rank(), 30);
    assert_eq!(Confidence::DaemonStaging.sarif_rank(), 60);
    assert_eq!(Confidence::DaemonProduction.sarif_rank(), 90);
}

#[test]
fn detector_findings_default_to_ci_batch_confidence() {
    let events: Vec<SpanRecord> = (1..=6)
        .map(|i| {
            make_sql_event(
                "trace-1",
                &format!("span-{i}"),
                &format!("SELECT * FROM order_item WHERE order_id = {i}"),
                &format!("2025-07-10T14:32:01.{:03}Z", i * 50),
            )
        })
        .collect();
    let trace = make_trace(events);
    let findings = detect(&[trace], &default_config());
    assert!(!findings.is_empty());
    for f in &findings {
        assert_eq!(f.confidence, Confidence::CiBatch);
    }
}

#[test]
fn detect_combines_n_plus_one_and_redundant() {
    // 5 events with different params -> N+1
    // 3 events with same params -> redundant
    let mut events = Vec::new();
    for i in 1..=5 {
        events.push(make_sql_event(
            "trace-1",
            &format!("span-{i}"),
            &format!("SELECT * FROM order_item WHERE order_id = {i}"),
            &format!("2025-07-10T14:32:01.{:03}Z", i * 50),
        ));
    }
    for i in 6..=8 {
        events.push(make_sql_event(
            "trace-1",
            &format!("span-{i}"),
            "SELECT * FROM config WHERE key = 'timeout'",
            &format!("2025-07-10T14:32:01.{:03}Z", i * 30),
        ));
    }

    let trace = make_trace(events);
    let findings = detect(&[trace], &default_config());

    let has_n_plus_one = findings
        .iter()
        .any(|f| f.finding_type == FindingType::NPlusOneSql);
    let has_redundant = findings
        .iter()
        .any(|f| f.finding_type == FindingType::RedundantSql);
    assert!(has_n_plus_one, "should detect N+1");
    assert!(has_redundant, "should detect redundant");
}

#[test]
fn detect_multiple_traces() {
    // Two separate traces, each with redundant queries
    let events_t1: Vec<SpanRecord> = (1..=3)
        .map(|i| {
            make_sql_event(
                "trace-A",
                &format!("span-a{i}"),
                "SELECT * FROM order_item WHERE order_id = 42",
                &format!("2025-07-10T14:32:01.{:03}Z", i * 50),
            )
        })
        .collect();

    let events_t2: Vec<SpanRecord> = (1..=2)
        .map(|i| {
            make_sql_event(
                "trace-B",
                &format!("span-b{i}"),
                "SELECT * FROM orders WHERE user_id = 7",
                &format!("2025-07-10T14:32:02.{:03}Z", i * 50),
            )
        })
        .collect();

    let trace_a = make_trace(events_t1);
    let trace_b = make_trace(events_t2);
    let findings = detect(&[trace_a, trace_b], &default_config());

    // Both traces have redundant queries
    assert!(
        findings.iter().any(|f| f.trace_id == "trace-A"),
        "trace-A should have findings"
    );
    assert!(
        findings.iter().any(|f| f.trace_id == "trace-B"),
        "trace-B should have findings"
    );
}

#[test]
fn finding_type_as_str() {
    assert_eq!(FindingType::NPlusOneSql.as_str(), "n_plus_one_sql");
    assert_eq!(FindingType::SlowHttp.as_str(), "slow_http");
    assert_eq!(FindingType::ChattyService.as_str(), "chatty_service");
    assert_eq!(FindingType::PoolSaturation.as_str(), "pool_saturation");
    assert_eq!(FindingType::SerializedCalls.as_str(), "serialized_calls");
}

#[test]
fn severity_as_str() {
    assert_eq!(Severity::Critical.as_str(), "critical");
    assert_eq!(Severity::Warning.as_str(), "warning");
    assert_eq!(Severity::Info.as_str(), "info");
}

#[test]
fn finding_type_from_event_type_n_plus_one() {
    assert_eq!(
        FindingType::from_event_type_n_plus_one(&EventType::Sql),
        FindingType::NPlusOneSql
    );
    assert_eq!(
        FindingType::from_event_type_n_plus_one(&EventType::HttpOut),
        FindingType::NPlusOneHttp
    );
}

#[test]
fn finding_type_from_event_type_redundant() {
    assert_eq!(
        FindingType::from_event_type_redundant(&EventType::Sql),
        FindingType::RedundantSql
    );
    assert_eq!(
        FindingType::from_event_type_redundant(&EventType::HttpOut),
        FindingType::RedundantHttp
    );
}

#[test]
fn finding_type_from_event_type_slow() {
    assert_eq!(
        FindingType::from_event_type_slow(&EventType::Sql),
        FindingType::SlowSql
    );
    assert_eq!(
        FindingType::from_event_type_slow(&EventType::HttpOut),
        FindingType::SlowHttp
    );
}

#[test]
fn detect_all_three_types_on_one_trace() {
    let mut events = Vec::new();
    // 5 different params -> N+1
    for i in 1..=5 {
        events.push(make_sql_event(
            "trace-1",
            &format!("span-n{i}"),
            &format!("SELECT * FROM order_item WHERE order_id = {i}"),
            &format!("2025-07-10T14:32:01.{:03}Z", i * 50),
        ));
    }
    // 3 identical queries -> redundant
    for i in 1..=3 {
        events.push(make_sql_event(
            "trace-1",
            &format!("span-r{i}"),
            "SELECT * FROM config WHERE key = 'timeout'",
            &format!("2025-07-10T14:32:02.{:03}Z", i * 30),
        ));
    }
    // 3 slow queries -> slow
    for i in 1..=3 {
        events.push(make_sql_event_with_duration(
            "trace-1",
            &format!("span-s{i}"),
            &format!("SELECT * FROM big_table WHERE id = {}", i + 100),
            &format!("2025-07-10T14:32:03.{:03}Z", i * 30),
            600_000,
        ));
    }
    let trace = make_trace(events);
    let findings = detect(&[trace], &default_config());

    let has_n1 = findings
        .iter()
        .any(|f| f.finding_type == FindingType::NPlusOneSql);
    let has_redundant = findings
        .iter()
        .any(|f| f.finding_type == FindingType::RedundantSql);
    let has_slow = findings
        .iter()
        .any(|f| f.finding_type == FindingType::SlowSql);

    assert!(has_n1, "should detect N+1");
    assert!(has_redundant, "should detect redundant");
    assert!(has_slow, "should detect slow");
}

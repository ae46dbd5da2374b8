//! Findings and what is done to lists of them.

use sentinel_core::config::Config;
use sentinel_core::detect::{Confidence, DetectConfig, Finding, FindingType, Pattern, Severity, apply_confidence, detect, run_full_detection, sort_findings};
use sentinel_core::detect::sanitizer_aware::SanitizerAwareMode;
use sentinel_core::detect::suggestions::{enrich, fix_table, table_fix};
use sentinel_core::detect::suggestions::rules::{Hint, hint_matches, namespace_contains_segment};
use sentinel_core::event::{CodeLocation, EventSource, EventType, GroupingAttribute, NormalizedEvent, SpanEvent, Trace};

/// A span as it is recorded, with the trace it belongs to.
#[derive(Debug, Clone)]
struct SpanRecord {
    trace_id: String,
    span: SpanEvent,
}

impl std::ops::Deref for SpanRecord {
    type Target = SpanEvent;

    fn deref(&self) -> &SpanEvent {
        &self.span
    }
}

impl std::ops::DerefMut for SpanRecord {
    fn deref_mut(&mut self) -> &mut SpanEvent {
        &mut self.span
    }
}

fn recorded_span(
    trace_id: &str,
    span_id: &str,
    event_type: EventType,
    operation: &str,
    target: &str,
    timestamp: &str,
    duration_us: u64,
) -> SpanRecord {
    SpanRecord {
        trace_id: trace_id.to_string(),
        span: SpanEvent {
            timestamp: timestamp.to_string(),
            span_id: span_id.to_string(),
            parent_span_id: None,
            service: "order-svc".to_string(),
            event_type,
            operation: operation.to_string(),
            target: target.to_string(),
            duration_us,
            source: EventSource {
                endpoint: "POST /api/orders/{id}/submit".to_string(),
                method: "OrderService::create_order".to_string(),
            },
            code_function: None,
            code_filepath: None,
            code_lineno: None,
            code_namespace: None,
            instrumentation_scopes: Vec::new(),
            grouping: Vec::new(),
        },
    }
}

fn make_sql_event(trace_id: &str, span_id: &str, target: &str, timestamp: &str) -> SpanRecord {
    make_sql_event_with_duration(trace_id, span_id, target, timestamp, 800)
}

fn make_sql_event_with_duration(
    trace_id: &str,
    span_id: &str,
    target: &str,
    timestamp: &str,
    duration_us: u64,
) -> SpanRecord {
    recorded_span(trace_id, span_id, EventType::Sql, "SELECT", target, timestamp, duration_us)
}

fn make_sql_series_events_with_stride(count: usize, stride_ms: usize) -> Vec<SpanRecord> {
    (1..=count)
        .map(|i| {
            make_sql_event(
                "trace-1",
                &format!("span-{i}"),
                &format!("SELECT * FROM order_item WHERE order_id = {i}"),
                &format!("2025-07-10T14:32:01.{:03}Z", i * stride_ms),
            )
        })
        .collect()
}

fn make_sql_series_events(count: usize) -> Vec<SpanRecord> {
    make_sql_series_events_with_stride(count, 50)
}

fn make_n_plus_one_events() -> Vec<SpanRecord> {
    make_sql_series_events(6)
}

fn grouping(key: &str, value: &str) -> Vec<GroupingAttribute> {
    vec![GroupingAttribute { key: key.to_string(), value: value.to_string() }]
}

/// Replace the literals of a statement by `?`.
fn normalize_sql(statement: &str) -> (String, Vec<String>) {
    let chars: Vec<char> = statement.chars().collect();
    let mut template = String::new();
    let mut params = Vec::new();
    let mut i = 0;
    while i < chars.len() {
        let c = chars[i];
        let in_word = i > 0 && (chars[i - 1].is_alphanumeric() || chars[i - 1] == '_');
        if c == '\'' {
            let end = (i + 1..chars.len()).find(|&k| chars[k] == '\'').unwrap_or(chars.len());
            params.push(chars[i + 1..end].iter().collect());
            template.push('?');
            i = end + 1;
        } else if c.is_ascii_digit() && !in_word {
            let end = (i..chars.len()).find(|&k| !chars[k].is_ascii_digit()).unwrap_or(chars.len());
            params.push(chars[i..end].iter().collect());
            template.push('?');
            i = end;
        } else {
            template.push(c);
            i += 1;
        }
    }
    (template, params)
}

/// Replace the numeric segments of a URL's path by `{id}`.
fn normalize_http(method: &str, url: &str) -> (String, Vec<String>) {
    let rest = url.split("://").nth(1).unwrap_or(url);
    let path = rest.find('/').map_or("/", |at| &rest[at..]);
    let mut params = Vec::new();
    let segments: Vec<String> = path
        .split('/')
        .map(|s| {
            if !s.is_empty() && s.chars().all(|c| c.is_ascii_digit()) {
                params.push(s.to_string());
                "{id}".to_string()
            } else {
                s.to_string()
            }
        })
        .collect();
    (format!("{method} {}", segments.join("/")), params)
}

fn normalize_one(event: SpanRecord) -> NormalizedEvent {
    let (template, params) = match event.event_type {
        EventType::Sql => normalize_sql(&event.target),
        EventType::HttpOut => normalize_http(&event.operation, &event.target),
    };
    let session_command = event.target.contains("set_config(");
    NormalizedEvent { event: event.span, template, params, session_command }
}

fn make_trace(events: Vec<SpanRecord>) -> Trace {
    Trace {
        trace_id: events.first().map(|e| e.trace_id.clone()).unwrap_or_default(),
        spans: events.into_iter().map(normalize_one).collect(),
    }
}

fn make_finding(finding_type: FindingType, severity: Severity) -> Finding {
    Finding {
        finding_type,
        severity,
        trace_id: "trace-1".to_string(),
        service: "order-svc".to_string(),
        grouping: Vec::new(),
        source_endpoint: "POST /api/orders/{id}/submit".to_string(),
        pattern: Pattern {
            template: "SELECT * FROM order_item WHERE order_id = ?".to_string(),
            occurrences: 6,
            window_ms: 250,
            distinct_params: 6,
            occurrences_by_service: Vec::new(),
        },
        suggestion: "batch".to_string(),
        first_timestamp: "2025-07-10T14:32:01.000Z".to_string(),
        last_timestamp: "2025-07-10T14:32:01.250Z".to_string(),
        green_impact: None,
        confidence: Confidence::default(),
        classification_method: None,
        code_location: None,
        instrumentation_scopes: Vec::new(),
        suggested_fix: None,
        signature: String::new(),
    }
}

#[test]
fn labels_cover_every_type() {
    let labels: Vec<&str> = [
        FindingType::NPlusOneSql,
        FindingType::NPlusOneHttp,
        FindingType::RedundantSql,
        FindingType::RedundantHttp,
        FindingType::SlowSql,
        FindingType::SlowHttp,
        FindingType::ExcessiveFanout,
        FindingType::ChattyService,
        FindingType::PoolSaturation,
        FindingType::SerializedCalls,
    ]
    .iter()
    .map(|t| t.display_label())
    .collect();
    assert_eq!(
        labels,
        [
            "N+1 SQL",
            "N+1 HTTP",
            "Redundant SQL",
            "Redundant HTTP",
            "Slow SQL",
            "Slow HTTP",
            "Excessive fanout",
            "Chatty service",
            "Pool saturation",
            "Serialized calls",
        ]
    );
}

#[test]
fn only_n_plus_one_and_redundant_io_is_avoidable() {
    assert!(FindingType::NPlusOneSql.is_avoidable_io());
    assert!(FindingType::RedundantHttp.is_avoidable_io());
    assert!(!FindingType::SlowSql.is_avoidable_io());
    assert!(!FindingType::PoolSaturation.is_avoidable_io());
}

#[test]
fn avoidable_operations_of_one_service() {
    let mut f = make_finding(FindingType::RedundantSql, Severity::Info);
    let all = f.avoidable_by_service();
    assert_eq!(all.len(), 1);
    assert_eq!((all[0].service.as_str(), all[0].count), ("order-svc", 5));
    f.pattern.occurrences = 0;
    assert_eq!(f.avoidable_by_service()[0].count, 0);
}

#[test]
fn findings_are_listed_by_type_severity_trace_endpoint_and_template() {
    let named = |t: FindingType, s: Severity, trace: &str, endpoint: &str, template: &str| {
        let mut f = make_finding(t, s);
        f.trace_id = trace.to_string();
        f.source_endpoint = endpoint.to_string();
        f.pattern.template = template.to_string();
        f
    };
    let expected = vec![
        named(FindingType::NPlusOneSql, Severity::Critical, "t2", "a", "x"),
        named(FindingType::NPlusOneSql, Severity::Warning, "t1", "a", "x"),
        named(FindingType::NPlusOneSql, Severity::Warning, "t1", "a", "y"),
        named(FindingType::NPlusOneSql, Severity::Warning, "t1", "b", "a"),
        named(FindingType::NPlusOneSql, Severity::Warning, "t10", "a", "a"),
        named(FindingType::SlowHttp, Severity::Info, "t0", "a", "a"),
    ];
    let mut shuffled: Vec<Finding> =
        [4, 2, 0, 5, 3, 1].iter().map(|&i: &usize| expected[i].clone()).collect();
    sort_findings(&mut shuffled);
    assert_eq!(shuffled, expected);
    sort_findings(&mut shuffled);
    assert_eq!(shuffled, expected);
}

#[test]
fn equally_listed_findings_keep_their_order() {
    let mut a = make_finding(FindingType::SlowSql, Severity::Info);
    a.service = "zeta".to_string();
    let mut b = a.clone();
    b.service = "alpha".to_string();
    let mut list = vec![a.clone(), b.clone()];
    sort_findings(&mut list);
    assert_eq!(list, vec![a, b]);
}

#[test]
fn confidence_is_stamped_and_nothing_else() {
    let before = vec![
        make_finding(FindingType::SlowSql, Severity::Info),
        make_finding(FindingType::NPlusOneHttp, Severity::Critical),
    ];
    let mut after = before.clone();
    apply_confidence(&mut after, Confidence::DaemonProduction);
    assert!(after.iter().all(|f| f.confidence == Confidence::DaemonProduction));
    apply_confidence(&mut after, Confidence::CiBatch);
    assert_eq!(after, before);
}

#[test]
fn copies_are_equal() {
    let mut f = make_finding(FindingType::NPlusOneSql, Severity::Warning);
    f.grouping = grouping("tenant.id", "prod");
    f.instrumentation_scopes = vec!["a".to_string(), "b".to_string()];
    f.code_location = Some(CodeLocation {
        function: Some("run".to_string()),
        filepath: Some("Order.java".to_string()),
        lineno: Some(7),
        namespace: Some("org.hibernate.Session".to_string()),
    });
    let mut list = vec![f.clone()];
    enrich(&mut list);
    assert!(list[0].suggested_fix.is_some());
    assert_eq!(list[0].duplicate(), list[0]);
    list[0].suggested_fix = None;
    assert_eq!(list[0], f);
}

#[test]
fn enriching_twice_changes_nothing_more() {
    let mut f = make_finding(FindingType::NPlusOneSql, Severity::Warning);
    f.instrumentation_scopes = vec!["io.opentelemetry.spring-data-jpa-3.0".to_string()];
    let mut once = vec![f];
    enrich(&mut once);
    let mut twice = once.clone();
    enrich(&mut twice);
    assert_eq!(once, twice);
}

#[test]
fn every_row_of_the_fix_table_is_looked_up() {
    let rows = fix_table();
    assert_eq!(rows.len(), 132);
    for row in &rows {
        assert_eq!(table_fix(row.finding_type, row.framework), Some(row.fix.clone()));
        assert_eq!(row.fix.pattern, row.finding_type.as_str());
        assert_eq!(row.fix.framework, row.framework.as_str());
        assert!(!row.fix.recommendation.is_empty());
    }
    for (i, a) in rows.iter().enumerate() {
        for b in &rows[i + 1..] {
            assert!((a.finding_type, a.framework) != (b.finding_type, b.framework));
        }
    }
}

#[test]
fn no_traces_no_cross_trace_findings() {
    let config = DetectConfig {
        n_plus_one_threshold: 5,
        window_ms: 500,
        slow_threshold_ms: 500,
        slow_min_occurrences: 3,
        max_fanout: 20,
        chatty_service_min_calls: 15,
        pool_saturation_concurrent_threshold: 10,
        serialized_min_sequential: 3,
        sanitizer_aware_classification: SanitizerAwareMode::Auto,
    };
    assert!(run_full_detection(&[], &config).is_empty());
    let trace = make_trace(make_n_plus_one_events());
    let one = [trace];
    assert_eq!(run_full_detection(&one, &config), detect(&one, &config));
}

#[test]
fn long_lists_are_sorted_stably() {
    let mut state: u64 = 7;
    let mut list: Vec<Finding> = (0..500)
        .map(|i| {
            state = state.wrapping_mul(6_364_136_223_846_793_005).wrapping_add(1);
            let mut f = make_finding(FindingType::SlowSql, Severity::Info);
            f.trace_id = format!("t{}", (state >> 33) % 9);
            f.service = format!("svc-{i}");
            f
        })
        .collect();
    let mut expected = list.clone();
    expected.sort_by_key(|f| f.trace_id.clone());
    sort_findings(&mut list);
    assert_eq!(list, expected);
}

#[test]
fn detectors_read_their_settings_from_the_configuration() {
    let config = Config {
        n_plus_one_threshold: 1,
        window_duration_ms: 2,
        slow_query_threshold_ms: 3,
        slow_query_min_occurrences: 4,
        max_fanout: 5,
        chatty_service_min_calls: 6,
        pool_saturation_concurrent_threshold: 7,
        serialized_min_sequential: 8,
        sanitizer_aware_classification: SanitizerAwareMode::Strict,
    };
    let read = DetectConfig::from(&config);
    assert_eq!((read.n_plus_one_threshold, read.window_ms, read.slow_threshold_ms), (1, 2, 3));
    assert_eq!((read.slow_min_occurrences, read.max_fanout), (4, 5));
    assert_eq!(read.chatty_service_min_calls, 6);
    assert_eq!(read.pool_saturation_concurrent_threshold, 7);
    assert_eq!(read.serialized_min_sequential, 8);
    assert_eq!(read.sanitizer_aware_classification, SanitizerAwareMode::Strict);
}

#[test]
fn an_empty_hint_stands_in_an_empty_namespace() {
    assert!(namespace_contains_segment("", ""));
    assert!(hint_matches("", Hint::Substring("")));
    assert!(!hint_matches("", Hint::Substring("gorm")));
    assert!(hint_matches("", Hint::LastSegmentEndsWith("")));
    assert!(hint_matches("com.example.OrderRepository", Hint::LastSegmentEndsWith("Repository")));
}

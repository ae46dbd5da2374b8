//! The state of the cross-trace correlator.

use sentinel_core::detect::{Confidence, Finding, FindingType, Pattern, Severity};
use sentinel_core::detect::correlate_cross::{CorrelationConfig, CorrelationEndpoint, CrossTraceCorrelator, HalfWindowCount, PairKey, PairState, Ratio, TrackedPair};
use sentinel_core::detect::correlate_cross::pair::median;
use sentinel_core::event::GroupingAttribute;
use sentinel_core::time::millis_to_iso8601;

fn grouping(key: &str, value: &str) -> Vec<GroupingAttribute> {
    vec![GroupingAttribute { key: key.to_string(), value: value.to_string() }]
}

fn make_finding(finding_type: FindingType, severity: Severity) -> Finding {
    Finding {
        finding_type,
        severity,
        trace_id: "trace-1".to_string(),
        service: "order-svc".to_string(),
        grouping: Vec::new(),
        source_endpoint: "POST /api/orders/{id}/submit".to_string(),
        pattern: Pattern {
            template: "SELECT * FROM order_item WHERE order_id = ?".to_string(),
            occurrences: 6,
            window_ms: 250,
            distinct_params: 6,
            occurrences_by_service: Vec::new(),
        },
        suggestion: "batch".to_string(),
        first_timestamp: "2025-07-10T14:32:01.000Z".to_string(),
        last_timestamp: "2025-07-10T14:32:01.250Z".to_string(),
        green_impact: None,
        confidence: Confidence::default(),
        classification_method: None,
        code_location: None,
        instrumentation_scopes: Vec::new(),
        suggested_fix: None,
        signature: String::new(),
    }
}

fn endpoint(finding_type: FindingType, service: &str) -> CorrelationEndpoint {
    CorrelationEndpoint {
        finding_type,
        service: service.to_string(),
        template: "tpl".to_string(),
        grouping_key: None,
        grouping_value: None,
    }
}

fn finding_at(service: &str, event_ms: u64) -> Finding {
    let mut f = make_finding(FindingType::NPlusOneSql, Severity::Warning);
    f.service = service.to_string();
    f.trace_id = format!("trace-{service}");
    f.first_timestamp = millis_to_iso8601(event_ms);
    f
}

#[test]
fn correlation_is_off_by_default() {
    let config = CorrelationConfig::default();
    assert!(!config.enabled);
    assert_eq!(config.window_ms, 600_000);
    assert_eq!(config.lag_threshold_ms, 5_000);
    assert_eq!(config.min_co_occurrences, 5);
    assert_eq!(config.min_confidence, Ratio { numerator: 7, denominator: 10 });
    assert_eq!(config.max_tracked_pairs, 10_000);
    assert_eq!(config.ingest_skew_ms, 60_000);
}

#[test]
fn half_window_counts_two_buckets() {
    let mut count = HalfWindowCount::default();
    assert_eq!(count.total(0), 0);
    for idx in [3, 3, 4, 3, 2] {
        count.add_at(idx);
    }
    assert_eq!(count, HalfWindowCount { idx: 4, cur: 1, prev: 3 });
    assert_eq!((count.total(4), count.total(5), count.total(6)), (4, 1, 0));
    count.add_at(7);
    assert_eq!(count, HalfWindowCount { idx: 7, cur: 1, prev: 0 });
    count.add_at(u64::MAX);
    assert_eq!(count.total(u64::MAX), 1);
}

#[test]
fn half_window_counts_stop_at_the_largest_count() {
    let mut count = HalfWindowCount { idx: 1, cur: u32::MAX, prev: u32::MAX };
    count.add_at(1);
    count.add_at(0);
    assert_eq!(count, HalfWindowCount { idx: 1, cur: u32::MAX, prev: u32::MAX });
    assert_eq!(count.total(1), u32::MAX);
}

#[test]
fn median_of_odd_and_even_samples() {
    assert_eq!(median(&Vec::new()), 0);
    assert_eq!(median(&vec![7]), 14);
    assert_eq!(median(&vec![9, 1, 4]), 8);
    assert_eq!(median(&vec![4, 9, 1, 2]), 6);
    assert_eq!(median(&vec![u64::MAX, u64::MAX]), 2 * u128::from(u64::MAX));
}

#[test]
fn sample_streams_are_seeded_by_the_endpoints() {
    let a = endpoint(FindingType::NPlusOneSql, "a");
    let b = endpoint(FindingType::PoolSaturation, "b");
    let fnv = |parts: &[(&str, u64)]| {
        let mut h: u64 = 0xcbf2_9ce4_8422_2325;
        for (text, separator) in parts {
            h ^= separator;
            for byte in text.bytes() {
                h = (h ^ u64::from(byte)).wrapping_mul(0x100_0000_01b3);
            }
        }
        h
    };
    let hash_a = fnv(&[("n_plus_one_sql", 0), ("a", 0xFF), ("tpl", 0xFE)]);
    let hash_b = fnv(&[("pool_saturation", 0), ("b", 0xFF), ("tpl", 0xFE)]);
    let state = PairState::new(1_000, &a, &b);
    assert_eq!(state.rng_state, 1_000 ^ (hash_a << 17) ^ hash_b);
    assert_ne!(state.rng_state, PairState::new(1_000, &b, &a).rng_state);
}

#[test]
fn reservoir_replaces_the_drawn_sample() {
    let a = endpoint(FindingType::NPlusOneSql, "a");
    let mut state = PairState::new(0, &a, &a);
    state.rng_state = 0;
    for i in 0..64 {
        state.record_lag(i);
    }
    assert_eq!(state.lags_ms, (0..64).collect::<Vec<u64>>());
    let mut rng: u64 = 0;
    let mut expected = state.lags_ms.clone();
    for n in 65..=2_000u64 {
        state.record_lag(1_000 + n);
        rng = rng.wrapping_add(0x9E37_79B9_7F4A_7C15);
        let mut z = rng;
        z = (z ^ (z >> 30)).wrapping_mul(0xBF58_476D_1CE4_E5B9);
        z = (z ^ (z >> 27)).wrapping_mul(0x94D0_49BB_1331_11EB);
        let drawn = (z ^ (z >> 31)) % n;
        if drawn < 64 {
            expected[drawn as usize] = 1_000 + n;
        }
    }
    assert_eq!(state.lags_ms, expected);
    assert_eq!(state.total_observations, 2_000);
}

#[test]
fn confidence_at_the_threshold_is_reported() {
    let config = CorrelationConfig {
        min_co_occurrences: 1,
        min_confidence: Ratio { numerator: 1, denominator: 2 },
        lag_threshold_ms: 100,
        ..CorrelationConfig::default()
    };
    let mut correlator = CrossTraceCorrelator::new(config);
    assert_eq!(correlator.ingest(&[finding_at("a", 1_000), finding_at("b", 1_050)], 1_100), 0);
    assert_eq!(correlator.ingest(&[finding_at("a", 9_000)], 9_000), 0);
    let found = correlator.active_correlations();
    assert_eq!(found.len(), 1);
    assert_eq!(found[0].confidence, Ratio { numerator: 1, denominator: 2 });
    assert_eq!(found[0].twice_median_lag_ms, 100);
    assert_eq!(found[0].first_seen, "1970-01-01T00:00:01.100Z");
    assert_eq!(found[0].last_seen, "1970-01-01T00:00:01.100Z");
    assert_eq!(correlator.ingest(&[finding_at("a", 20_000)], 20_000), 0);
    assert!(correlator.active_correlations().is_empty());
}

#[test]
fn replaying_a_batch_gives_the_same_correlations() {
    let run = || {
        let mut correlator = CrossTraceCorrelator::new(CorrelationConfig {
            min_co_occurrences: 1,
            min_confidence: Ratio { numerator: 0, denominator: 1 },
            ..CorrelationConfig::default()
        });
        for i in 0..300u64 {
            let t = 1_000_000 + i * 700;
            let _ = correlator.ingest(
                &[finding_at("a", t), finding_at("b", t + (i * 37) % 500)],
                t + 600,
            );
        }
        correlator
            .active_correlations()
            .iter()
            .map(|c| (c.source.service.clone(), c.co_occurrence_count, c.twice_median_lag_ms))
            .collect::<Vec<_>>()
    };
    assert!(!run().is_empty());
    assert_eq!(run(), run());
}

#[test]
fn a_pair_never_outcounts_its_source() {
    let mut correlator = CrossTraceCorrelator::new(CorrelationConfig {
        window_ms: 2_000,
        lag_threshold_ms: 700,
        min_co_occurrences: 0,
        min_confidence: Ratio { numerator: 0, denominator: 1 },
        max_tracked_pairs: 7,
        ingest_skew_ms: 900,
        ..CorrelationConfig::default()
    });
    let mut state: u64 = 11;
    let mut now = 50_000;
    for _ in 0..400 {
        state = state.wrapping_mul(6_364_136_223_846_793_005).wrapping_add(99);
        now += state % 400;
        let batch: Vec<Finding> = (0..state % 4)
            .map(|k| {
                let service = ["a", "b", "c", "d"][((state >> (8 * k)) % 4) as usize];
                finding_at(service, now - (state >> (5 * k)) % 1_000)
            })
            .collect();
        let _ = correlator.ingest(&batch, now);
        assert!(correlator.pair_counts.len() <= 7);
        for pair in &correlator.pair_counts {
            assert!(pair.state.last_seen_ms + 2_000 >= now);
            assert!(pair.state.lags_ms.len() <= 64);
            assert!(pair.key.source.service != pair.key.target.service);
            let total = correlator
                .endpoints
                .iter()
                .find(|e| e.endpoint == pair.key.source)
                .expect("the source of a pair is known")
                .count
                .total(correlator.now_idx);
            assert!(pair.state.co.total(correlator.now_idx) <= total);
        }
        for occurrence in &correlator.occurrences {
            assert!(occurrence.ingest_ms + 1_600 >= now);
        }
    }
}

#[test]
fn eviction_below_the_cap_takes_nothing() {
    let mut correlator = CrossTraceCorrelator::new(CorrelationConfig {
        max_tracked_pairs: 3,
        ..CorrelationConfig::default()
    });
    assert_eq!(correlator.enforce_pair_cap(), 0);
    for (i, name) in ["a", "b", "c"].iter().enumerate() {
        let source = endpoint(FindingType::NPlusOneSql, name);
        let target = endpoint(FindingType::SlowSql, "target");
        let mut state = PairState::new(0, &source, &target);
        state.last_seen_ms = 10 - i as u64;
        correlator.pair_counts.push(TrackedPair { key: PairKey { source, target }, state });
    }
    assert_eq!(correlator.enforce_pair_cap(), 1);
    let left: Vec<&str> =
        correlator.pair_counts.iter().map(|p| p.key.source.service.as_str()).collect();
    assert_eq!(left, ["a", "b"]);
    assert_eq!(correlator.enforce_pair_cap(), 0);
}

#[test]
fn an_empty_trace_id_keeps_the_sample() {
    let a = endpoint(FindingType::NPlusOneSql, "a");
    let mut state = PairState::new(0, &a, &a);
    state.update_sample_trace_ids("s1", "t1");
    state.update_sample_trace_ids("", "t2");
    assert_eq!(state.last_source_trace_id.as_deref(), Some("s1"));
    assert_eq!(state.last_trace_id.as_deref(), Some("t2"));
    let long = "é".repeat(100);
    state.update_sample_trace_ids(&long, "");
    assert_eq!(state.last_source_trace_id, Some("é".repeat(64)));
    assert_eq!(state.last_trace_id.as_deref(), Some("t2"));
}

#[test]
fn a_source_counts_once_however_often_its_target_recurs() {
    let mut correlator = CrossTraceCorrelator::new(CorrelationConfig {
        min_co_occurrences: 1,
        min_confidence: Ratio { numerator: 0, denominator: 1 },
        lag_threshold_ms: 1_000,
        ..CorrelationConfig::default()
    });
    let batch = [finding_at("a", 5_000), finding_at("b", 5_100), finding_at("b", 5_300)];
    assert_eq!(correlator.ingest(&batch, 5_400), 0);
    let found = correlator.active_correlations();
    assert_eq!(found.len(), 1);
    assert_eq!((found[0].co_occurrence_count, found[0].source_total_occurrences), (1, 1));
    assert_eq!(found[0].twice_median_lag_ms, 200);
}

#[test]
fn losses_leave_room_below_the_cap() {
    for cap in [1, 5, 10, 19, 20, 37] {
        let mut correlator = CrossTraceCorrelator::new(CorrelationConfig {
            max_tracked_pairs: cap,
            ..CorrelationConfig::default()
        });
        let batch: Vec<Finding> =
            (0..12).map(|i| finding_at(&format!("svc-{i}"), 1_000 + i)).collect();
        assert!(correlator.ingest(&batch, 2_000) > 0);
        assert_eq!(correlator.pair_counts.len(), cap - (cap / 10).max(1));
    }
}

#[test]
fn counts_do_not_depend_on_arrival_order() {
    let counted = |batches: &[&[Finding]]| {
        let mut correlator = CrossTraceCorrelator::new(CorrelationConfig {
            min_co_occurrences: 1,
            min_confidence: Ratio { numerator: 0, denominator: 1 },
            ..CorrelationConfig::default()
        });
        for batch in batches {
            assert_eq!(correlator.ingest(batch, 3_000), 0);
        }
        correlator
            .active_correlations()
            .iter()
            .map(|c| (c.source.service.clone(), c.co_occurrence_count, c.twice_median_lag_ms))
            .collect::<Vec<_>>()
    };
    let (a, b) = (finding_at("a", 1_000), finding_at("b", 1_400));
    let expected = vec![("a".to_string(), 1, 800)];
    assert_eq!(counted(&[&[a.clone(), b.clone()]]), expected);
    assert_eq!(counted(&[&[b.clone(), a.clone()]]), expected);
    assert_eq!(counted(&[&[b], &[a]]), expected);
}

//! Detection stage: identifies performance anti-patterns in traces.

pub mod chatty;
pub mod correlate_cross;
pub mod fanout;
pub mod finding;
pub mod grouping;
pub mod indices;
pub mod laws;
pub mod measure;
pub mod n_plus_one;
pub mod pool_saturation;
pub mod redundant;
pub mod reports;
pub mod sanitizer_aware;
pub mod sequences;
pub mod serialized;
pub mod slow;
pub mod suggestions;

pub use crate::detect::finding::{
    ClassificationMethod, Confidence, Finding, FindingKey, FindingType, FindingView, GreenImpact,
    InterpretationLevel, Pattern, PatternView, ServiceCount, Severity,
};
pub use crate::detect::indices::{Siblings, TraceIndices};

use crate::config::Config;
use crate::detect::sanitizer_aware::SanitizerAwareMode;
use crate::event::Trace;
use crate::order;
use crate::order::Ranked;
use crate::text;
use vstd::prelude::*;

verus! {

/// Configuration for the detection stage.
#[derive(Debug, Clone, Copy)]
pub struct DetectConfig {
    pub n_plus_one_threshold: u32,
    pub window_ms: u64,
    pub slow_threshold_ms: u64,
    pub slow_min_occurrences: u32,
    pub max_fanout: u32,
    pub chatty_service_min_calls: u32,
    pub pool_saturation_concurrent_threshold: u32,
    pub serialized_min_sequential: u32,
    pub sanitizer_aware_classification: SanitizerAwareMode,
}

impl DetectConfig {
    /// The detectors' settings in a configuration.
    pub open spec fn configured(config: Config) -> DetectConfig {
        DetectConfig {
            n_plus_one_threshold: config.n_plus_one_threshold,
            window_ms: config.window_duration_ms,
            slow_threshold_ms: config.slow_query_threshold_ms,
            slow_min_occurrences: config.slow_query_min_occurrences,
            max_fanout: config.max_fanout,
            chatty_service_min_calls: config.chatty_service_min_calls,
            pool_saturation_concurrent_threshold: config.pool_saturation_concurrent_threshold,
            serialized_min_sequential: config.serialized_min_sequential,
            sanitizer_aware_classification: config.sanitizer_aware_classification,
        }
    }
}

impl From<&Config> for DetectConfig {
    fn from(config: &Config) -> (r: Self)
        ensures
            r == DetectConfig::configured(*config),
    {
        DetectConfig {
            n_plus_one_threshold: config.n_plus_one_threshold,
            window_ms: config.window_duration_ms,
            slow_threshold_ms: config.slow_query_threshold_ms,
            slow_min_occurrences: config.slow_query_min_occurrences,
            max_fanout: config.max_fanout,
            chatty_service_min_calls: config.chatty_service_min_calls,
            pool_saturation_concurrent_threshold: config.pool_saturation_concurrent_threshold,
            serialized_min_sequential: config.serialized_min_sequential,
            sanitizer_aware_classification: config.sanitizer_aware_classification,
        }
    }
}

impl vstd::std_specs::convert::FromSpecImpl<&Config> for DetectConfig {
    open spec fn obeys_from_spec() -> bool {
        true
    }

    open spec fn from_spec(config: &Config) -> DetectConfig {
        DetectConfig::configured(*config)
    }
}

/// What the detectors report on one trace, without fixes.
#[verifier::opaque]
pub open spec fn trace_findings(trace: Trace, config: DetectConfig) -> Seq<FindingView> {
    let id = trace.trace_id@;
    let n_plus_one = n_plus_one::n_plus_one_findings(
        id,
        trace.spans@,
        config.n_plus_one_threshold as nat,
        config.window_ms,
        config.sanitizer_aware_classification,
    );
    n_plus_one + redundant::redundant_findings(id, trace.spans@, n_plus_one)
        + slow::slow_findings(
        id,
        trace.spans@,
        config.slow_threshold_ms,
        config.slow_min_occurrences as nat,
    ) + fanout::fanout_findings(id, &trace.spans, config.max_fanout as nat)
        + chatty::chatty_findings(id, trace.spans@, config.chatty_service_min_calls as nat)
        + pool_saturation::pool_findings(
        id,
        trace.spans@,
        config.pool_saturation_concurrent_threshold as nat,
    ) + serialized::serialized_findings(
        id,
        &trace.spans,
        config.serialized_min_sequential as nat,
    )
}

/// What the detectors report on each trace in turn, without fixes.
pub open spec fn plain_findings(traces: Seq<Trace>, config: DetectConfig) -> Seq<FindingView>
    decreases traces.len(),
{
    if traces.len() == 0 {
        Seq::empty()
    } else {
        plain_findings(traces.drop_last(), config) + trace_findings(traces.last(), config)
    }
}

/// What the per-trace detection reports.
pub open spec fn detected(traces: Seq<Trace>, config: DetectConfig) -> Seq<FindingView> {
    suggestions::all_enriched(plain_findings(traces, config))
}

/// What the full detection reports: cross-trace findings too when there are two traces or more.
pub open spec fn fully_detected(traces: &[Trace], config: DetectConfig) -> Seq<FindingView> {
    detected(traces@, config) + (if traces@.len() >= 2 {
        slow::cross_trace_findings(
            traces,
            config.slow_threshold_ms,
            config.slow_min_occurrences as nat,
        )
    } else {
        Seq::empty()
    })
}

fn detect_in(trace: &Trace, config: &DetectConfig) -> (r: Vec<Finding>)
    ensures
        finding::finding_views(r@) == trace_findings(*trace, *config),
{
    let relations = TraceIndices::build(trace);
    let mut n_plus_one_findings = n_plus_one::detect_n_plus_one(
        trace,
        config.n_plus_one_threshold,
        config.window_ms,
        config.sanitizer_aware_classification,
    );
    let mut redundant_findings = redundant::detect_redundant(
        trace,
        n_plus_one_findings.as_slice(),
    );
    let mut slow_findings = slow::detect_slow(
        trace,
        config.slow_threshold_ms,
        config.slow_min_occurrences,
    );
    let mut fanout_findings = fanout::detect_fanout_indexed(trace, &relations, config.max_fanout);
    let mut chatty_findings = chatty::detect_chatty(trace, config.chatty_service_min_calls);
    let mut pool_findings = pool_saturation::detect_pool_saturation(
        trace,
        config.pool_saturation_concurrent_threshold,
    );
    let mut serialized_findings = serialized::detect_serialized(
        trace,
        &relations,
        config.serialized_min_sequential,
    );
    let ghost parts = (
        finding::finding_views(n_plus_one_findings@),
        finding::finding_views(redundant_findings@),
        finding::finding_views(slow_findings@),
        finding::finding_views(fanout_findings@),
        finding::finding_views(chatty_findings@),
        finding::finding_views(pool_findings@),
        finding::finding_views(serialized_findings@),
    );
    let mut findings: Vec<Finding> = Vec::new();
    findings.append(&mut n_plus_one_findings);
    findings.append(&mut redundant_findings);
    findings.append(&mut slow_findings);
    findings.append(&mut fanout_findings);
    findings.append(&mut chatty_findings);
    findings.append(&mut pool_findings);
    findings.append(&mut serialized_findings);
    reveal(trace_findings);
    assert(finding::finding_views(findings@) =~= parts.0 + parts.1 + parts.2 + parts.3 + parts.4
        + parts.5 + parts.6);
    findings
}

/// Run all per-trace detectors on a set of traces.
///
/// Does not look across traces; see [`run_full_detection`] for the combined pass.
pub fn detect(traces: &[Trace], config: &DetectConfig) -> (r: Vec<Finding>)
    ensures
        finding::finding_views(r@) == detected(traces@, *config),
{
    let mut findings: Vec<Finding> = Vec::new();
    let mut i: usize = 0;
    assert(finding::finding_views(findings@) =~= plain_findings(traces@.take(0), *config));
    while i < traces.len()
        invariant
            i <= traces@.len(),
            finding::finding_views(findings@) == plain_findings(traces@.take(i as int), *config),
        decreases traces@.len() - i,
    {
        let ghost before = findings@;
        let mut more = detect_in(&traces[i], config);
        let ghost added = more@;
        findings.append(&mut more);
        proof {
            assert(traces@.take(i + 1).drop_last() =~= traces@.take(i as int));
            assert(finding::finding_views(findings@) =~= finding::finding_views(before)
                + finding::finding_views(added));
        }
        i += 1;
    }
    assert(traces@.take(i as int) =~= traces@);
    suggestions::enrich(&mut findings);
    findings
}

/// Run per-trace and cross-trace detection on a set of traces.
///
/// The findings are neither sorted nor stamped with a confidence. Cross-trace detection needs two
/// traces, since percentiles over one say nothing.
pub fn run_full_detection(traces: &[Trace], config: &DetectConfig) -> (r: Vec<Finding>)
    ensures
        finding::finding_views(r@) == fully_detected(traces, *config),
{
    let mut findings = detect(traces, config);
    if traces.len() >= 2 {
        let ghost before = findings@;
        let mut cross_trace = slow::detect_slow_cross_trace(
            traces,
            config.slow_threshold_ms,
            config.slow_min_occurrences,
        );
        let ghost added = cross_trace@;
        findings.append(&mut cross_trace);
        assert(finding::finding_views(findings@) =~= finding::finding_views(before)
            + finding::finding_views(added));
    } else {
        assert(finding::finding_views(findings@) =~= fully_detected(traces, *config));
    }
    findings
}

/// A finding under another confidence.
pub open spec fn with_confidence(f: FindingView, confidence: Confidence) -> FindingView {
    FindingView { confidence, ..f }
}

/// Stamp a confidence on every finding.
pub fn apply_confidence(findings: &mut Vec<Finding>, confidence: Confidence)
    ensures
        finding::finding_views(final(findings)@) == finding::finding_views(
            old(findings)@,
        ).map_values(|f: FindingView| with_confidence(f, confidence)),
{
    let ghost before = findings@;
    let mut i: usize = 0;
    while i < findings.len()
        invariant
            i <= findings@.len(),
            findings@.len() == before.len(),
            forall|k: int|
                0 <= k < i ==> (#[trigger] findings@[k])@ == with_confidence(before[k]@, confidence),
            forall|k: int| i <= k < findings@.len() ==> #[trigger] findings@[k] == before[k],
        decreases findings@.len() - i,
    {
        findings[i].confidence = confidence;
        i += 1;
    }
    assert(finding::finding_views(findings@) =~= finding::finding_views(before).map_values(
        |f: FindingView| with_confidence(f, confidence),
    ));
}

/// Whether a finding may be listed before another: by type, severity, trace, endpoint and template.
pub open spec fn listed_before(a: FindingView, b: FindingView) -> bool {
    ||| a.finding_type.position() < b.finding_type.position()
    ||| a.finding_type == b.finding_type && {
        ||| a.severity.position() < b.severity.position()
        ||| a.severity == b.severity && {
            ||| text::text_lt(a.trace_id, b.trace_id)
            ||| a.trace_id == b.trace_id && {
                ||| text::text_lt(a.source_endpoint, b.source_endpoint)
                ||| a.source_endpoint == b.source_endpoint && !text::text_lt(
                    b.pattern.template,
                    a.pattern.template,
                )
            }
        }
    }
}

impl Ranked for Finding {
    open spec fn rank_le(&self, other: &Self) -> bool {
        listed_before(self@, other@)
    }

    proof fn rank_total(a: Self, b: Self) {
        text::lemma_text_lt_triple(a.trace_id@, b.trace_id@, b.trace_id@);
        text::lemma_text_lt_triple(a.source_endpoint@, b.source_endpoint@, b.source_endpoint@);
        text::lemma_text_lt_triple(
            a.pattern.template@,
            b.pattern.template@,
            b.pattern.template@,
        );
    }

    proof fn rank_transitive(a: Self, b: Self, c: Self) {
        text::lemma_text_lt_triple(a.trace_id@, b.trace_id@, c.trace_id@);
        text::lemma_text_lt_triple(a.source_endpoint@, b.source_endpoint@, c.source_endpoint@);
        text::lemma_text_lt_triple(
            a.pattern.template@,
            b.pattern.template@,
            c.pattern.template@,
        );
    }

    fn may_precede(&self, other: &Self) -> (r: bool) {
        let (t, u) = (self.finding_type.listed_at(), other.finding_type.listed_at());
        if t != u {
            return t < u;
        }
        let (s, q) = (self.severity.listed_at(), other.severity.listed_at());
        if s != q {
            return s < q;
        }
        proof {
            text::lemma_text_lt_triple(self.trace_id@, other.trace_id@, other.trace_id@);
            text::lemma_text_lt_triple(
                self.source_endpoint@,
                other.source_endpoint@,
                other.source_endpoint@,
            );
        }
        if self.trace_id != other.trace_id {
            return text::precedes(self.trace_id.as_str(), other.trace_id.as_str());
        }
        if self.source_endpoint != other.source_endpoint {
            return text::precedes(self.source_endpoint.as_str(), other.source_endpoint.as_str());
        }
        !text::precedes(other.pattern.template.as_str(), self.pattern.template.as_str())
    }
}

/// Sort findings for stable output: by type, severity, trace, endpoint and template.
pub fn sort_findings(findings: &mut Vec<Finding>)
    ensures
        final(findings)@ == order::ranked(old(findings)@),
{
    let mut unsorted: Vec<Finding> = Vec::new();
    unsorted.append(findings);
    assert(unsorted@ =~= old(findings)@);
    *findings = order::sort_ranked(unsorted);
}

} // verus!

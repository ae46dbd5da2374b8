//! Findings: the anti-patterns that the detectors report.

use crate::detect::measure;
use crate::detect::suggestions::{SuggestedFix, SuggestedFixView};
use crate::event;
use crate::event::{CodeLocation, CodeLocationView, EventType, GroupingAttribute, NormalizedEvent};
use vstd::prelude::*;

verus! {

/// Types of performance anti-patterns.
#[derive(Debug, Clone, Copy, PartialEq, Eq, PartialOrd, Ord, Hash, Structural)]
pub enum FindingType {
    NPlusOneSql,
    NPlusOneHttp,
    RedundantSql,
    RedundantHttp,
    SlowSql,
    SlowHttp,
    ExcessiveFanout,
    ChattyService,
    PoolSaturation,
    SerializedCalls,
}

/// Severity levels for findings, worst first.
#[derive(Debug, Clone, Copy, PartialEq, Eq, PartialOrd, Ord, Hash, Structural)]
pub enum Severity {
    Critical,
    Warning,
    Info,
}

/// Where and how a finding was produced.
#[derive(Debug, Clone, Copy, PartialEq, Eq, PartialOrd, Ord, Structural)]
pub enum Confidence {
    /// A batch run on traces collected in CI: limited traffic shapes, lowest confidence.
    CiBatch,
    /// A daemon run on staging traffic.
    DaemonStaging,
    /// A daemon run on production traffic: highest confidence.
    DaemonProduction,
}

/// How a finding's type was determined.
#[derive(Debug, Clone, Copy, PartialEq, Eq, Structural)]
pub enum ClassificationMethod {
    /// The standard rule.
    Direct,
    /// The heuristic for statements whose literals a sanitizer collapsed.
    SanitizerHeuristic,
}

/// Band of an I/O intensity score.
#[derive(Debug, Clone, Copy, PartialEq, Eq, Structural)]
pub enum InterpretationLevel {
    Healthy,
    Moderate,
    High,
    Critical,
}

/// Energy impact estimate of a finding.
#[derive(Debug, Clone, Copy, PartialEq, Eq, Structural)]
pub struct GreenImpact {
    /// Extra I/O operations caused by the anti-pattern.
    pub estimated_extra_io_ops: usize,
    /// Bit pattern of the binary64 I/O intensity score of the endpoint, carried as it is.
    pub io_intensity_score_bits: u64,
    /// Band of the score.
    pub io_intensity_band: InterpretationLevel,
}

/// How many of a pattern's occurrences one service emitted.
#[derive(Debug, Clone, PartialEq, Eq)]
pub struct ServiceCount {
    pub service: String,
    pub count: usize,
}

impl View for ServiceCount {
    type V = (Seq<char>, nat);

    open spec fn view(&self) -> (Seq<char>, nat) {
        (self.service@, self.count as nat)
    }
}

/// The service and count of each entry.
pub open spec fn service_counts(s: Seq<ServiceCount>) -> Seq<(Seq<char>, nat)> {
    s.map_values(|c: ServiceCount| c@)
}

/// Pattern details for a finding.
#[derive(Debug, Clone, PartialEq, Eq)]
pub struct Pattern {
    /// Normalized query or URL template shared by the matched spans.
    pub template: String,
    /// Number of spans that matched this template within the window.
    pub occurrences: usize,
    /// Time span, in milliseconds, covering all matched occurrences.
    pub window_ms: u64,
    /// Count of distinct parameter sets observed across occurrences.
    pub distinct_params: usize,
    /// Occurrences per service, by service name; empty unless several services took part.
    pub occurrences_by_service: Vec<ServiceCount>,
}

/// The mathematical value of a [`Pattern`].
pub struct PatternView {
    pub template: Seq<char>,
    pub occurrences: nat,
    pub window_ms: u64,
    pub distinct_params: nat,
    pub occurrences_by_service: Seq<(Seq<char>, nat)>,
}

impl View for Pattern {
    type V = PatternView;

    open spec fn view(&self) -> PatternView {
        PatternView {
            template: self.template@,
            occurrences: self.occurrences as nat,
            window_ms: self.window_ms,
            distinct_params: self.distinct_params as nat,
            occurrences_by_service: service_counts(self.occurrences_by_service@),
        }
    }
}

/// A detected performance anti-pattern.
#[derive(Debug, Clone, PartialEq, Eq)]
pub struct Finding {
    /// The anti-pattern category.
    pub finding_type: FindingType,
    /// Severity level.
    pub severity: Severity,
    /// Trace in which the anti-pattern was detected.
    pub trace_id: String,
    /// Service emitting the spans involved.
    pub service: String,
    /// Grouping attributes of the spans involved.
    pub grouping: Vec<GroupingAttribute>,
    /// Normalized inbound endpoint hosting the pattern.
    pub source_endpoint: String,
    /// Details of the matched pattern.
    pub pattern: Pattern,
    /// Human-readable remediation hint.
    pub suggestion: String,
    /// Earliest timestamp among the spans involved.
    pub first_timestamp: String,
    /// Latest timestamp among the spans involved.
    pub last_timestamp: String,
    /// Energy impact estimate, when scoring is enabled.
    pub green_impact: Option<GreenImpact>,
    /// Source context. Detectors emit the default; the caller stamps the real one.
    pub confidence: Confidence,
    /// How the type was classified; `None` means the standard rule.
    pub classification_method: Option<ClassificationMethod>,
    /// Source code location of the spans involved.
    pub code_location: Option<CodeLocation>,
    /// Instrumentation scope chain of the originating span, leaf to root.
    pub instrumentation_scopes: Vec<String>,
    /// Framework-specific fix.
    pub suggested_fix: Option<SuggestedFix>,
    /// Canonical signature for acknowledgments, filled in by the caller.
    pub signature: String,
}

/// The mathematical value of a [`Finding`].
pub struct FindingView {
    pub finding_type: FindingType,
    pub severity: Severity,
    pub trace_id: Seq<char>,
    pub service: Seq<char>,
    pub grouping: Seq<(Seq<char>, Seq<char>)>,
    pub source_endpoint: Seq<char>,
    pub pattern: PatternView,
    pub suggestion: Seq<char>,
    pub first_timestamp: Seq<char>,
    pub last_timestamp: Seq<char>,
    pub green_impact: Option<GreenImpact>,
    pub confidence: Confidence,
    pub classification_method: Option<ClassificationMethod>,
    pub code_location: Option<CodeLocationView>,
    pub instrumentation_scopes: Seq<Seq<char>>,
    pub suggested_fix: Option<SuggestedFixView>,
    pub signature: Seq<char>,
}

/// The mathematical value of an optional fix.
pub open spec fn fix_view(fix: Option<SuggestedFix>) -> Option<SuggestedFixView> {
    match fix {
        Some(f) => Some(f@),
        None => None,
    }
}

impl View for Finding {
    type V = FindingView;

    open spec fn view(&self) -> FindingView {
        FindingView {
            finding_type: self.finding_type,
            severity: self.severity,
            trace_id: self.trace_id@,
            service: self.service@,
            grouping: event::grouping_views(self.grouping@),
            source_endpoint: self.source_endpoint@,
            pattern: self.pattern@,
            suggestion: self.suggestion@,
            first_timestamp: self.first_timestamp@,
            last_timestamp: self.last_timestamp@,
            green_impact: self.green_impact,
            confidence: self.confidence,
            classification_method: self.classification_method,
            code_location: event::location_view(self.code_location),
            instrumentation_scopes: event::texts(self.instrumentation_scopes@),
            suggested_fix: fix_view(self.suggested_fix),
            signature: self.signature@,
        }
    }
}

/// The mathematical value of each finding.
pub open spec fn finding_views(s: Seq<Finding>) -> Seq<FindingView> {
    s.map_values(|f: Finding| f@)
}

impl FindingView {
    /// The grouping attribute that takes effect.
    pub open spec fn identity(self) -> Option<(Seq<char>, Seq<char>)> {
        event::effective(self.grouping)
    }

    /// The finding under another trace id.
    pub open spec fn in_trace(self, trace_id: Seq<char>) -> FindingView {
        FindingView { trace_id, ..self }
    }

    /// What identifies a finding apart from context that depends on the order of spans.
    pub open spec fn key(self) -> FindingKey {
        FindingKey {
            finding_type: self.finding_type,
            template: self.pattern.template,
            occurrences: self.pattern.occurrences,
            distinct_params: self.pattern.distinct_params,
            severity: self.severity,
        }
    }

    /// How many operations each service could have avoided: all of its occurrences, less the one
    /// needed, which the finding's own service keeps.
    pub open spec fn avoidable(self) -> Seq<(Seq<char>, nat)> {
        if self.pattern.occurrences_by_service.len() == 0 {
            seq![(self.service, less_one(self.pattern.occurrences))]
        } else {
            own_share(self.service, self.pattern.occurrences_by_service) + other_shares(
                self.service,
                self.pattern.occurrences_by_service,
            )
        }
    }
}

/// One less, not below zero.
pub open spec fn less_one(n: nat) -> nat {
    if n > 0 {
        (n - 1) as nat
    } else {
        0
    }
}

/// The entries of `service`, each with one occurrence less.
pub open spec fn own_share(
    service: Seq<char>,
    counts: Seq<(Seq<char>, nat)>,
) -> Seq<(Seq<char>, nat)>
    decreases counts.len(),
{
    if counts.len() == 0 {
        Seq::empty()
    } else {
        let rest = own_share(service, counts.drop_last());
        if counts.last().0 == service {
            rest.push((service, less_one(counts.last().1)))
        } else {
            rest
        }
    }
}

/// The entries of the other services.
pub open spec fn other_shares(
    service: Seq<char>,
    counts: Seq<(Seq<char>, nat)>,
) -> Seq<(Seq<char>, nat)>
    decreases counts.len(),
{
    if counts.len() == 0 {
        Seq::empty()
    } else {
        let rest = other_shares(service, counts.drop_last());
        if counts.last().0 == service {
            rest
        } else {
            rest.push(counts.last())
        }
    }
}

/// The part of a finding that no reordering of the spans may change.
pub struct FindingKey {
    pub finding_type: FindingType,
    pub template: Seq<char>,
    pub occurrences: nat,
    pub distinct_params: nat,
    pub severity: Severity,
}

/// The key of each finding.
pub open spec fn finding_keys(s: Seq<FindingView>) -> Seq<FindingKey> {
    s.map_values(|f: FindingView| f.key())
}

impl Default for Confidence {
    fn default() -> (r: Self)
        ensures
            r == Confidence::CiBatch,
    {
        Confidence::CiBatch
    }
}

impl Confidence {
    /// The `snake_case` name.
    pub open spec fn name(self) -> Seq<char> {
        match self {
            Confidence::CiBatch => "ci_batch"@,
            Confidence::DaemonStaging => "daemon_staging"@,
            Confidence::DaemonProduction => "daemon_production"@,
        }
    }

    /// The SARIF rank.
    pub open spec fn rank(self) -> u32 {
        match self {
            Confidence::CiBatch => 30,
            Confidence::DaemonStaging => 60,
            Confidence::DaemonProduction => 90,
        }
    }

    /// Position in the order of growing confidence.
    pub open spec fn level(self) -> int {
        match self {
            Confidence::CiBatch => 0,
            Confidence::DaemonStaging => 1,
            Confidence::DaemonProduction => 2,
        }
    }

    /// The `snake_case` name.
    pub fn as_str(&self) -> (r: &'static str)
        ensures
            r@ == self.name(),
    {
        match self {
            Confidence::CiBatch => "ci_batch",
            Confidence::DaemonStaging => "daemon_staging",
            Confidence::DaemonProduction => "daemon_production",
        }
    }

    /// The confidence as a SARIF `rank` value, from 0 to 100.
    pub fn sarif_rank(&self) -> (r: u32)
        ensures
            r == self.rank(),
    {
        match self {
            Confidence::CiBatch => 30,
            Confidence::DaemonStaging => 60,
            Confidence::DaemonProduction => 90,
        }
    }
}

/// The SARIF rank grows with the confidence and stays within 0 to 100.
pub proof fn law_sarif_rank_grows_with_confidence(a: Confidence, b: Confidence)
    ensures
        a.level() < b.level() <==> a.rank() < b.rank(),
        a.rank() <= 100,
{
}

impl FindingType {
    /// The N+1 type for a kind of operation.
    pub open spec fn n_plus_one(event_type: EventType) -> FindingType {
        match event_type {
            EventType::Sql => FindingType::NPlusOneSql,
            EventType::HttpOut => FindingType::NPlusOneHttp,
        }
    }

    /// The redundant type for a kind of operation.
    pub open spec fn redundant(event_type: EventType) -> FindingType {
        match event_type {
            EventType::Sql => FindingType::RedundantSql,
            EventType::HttpOut => FindingType::RedundantHttp,
        }
    }

    /// The slow type for a kind of operation.
    pub open spec fn slow(event_type: EventType) -> FindingType {
        match event_type {
            EventType::Sql => FindingType::SlowSql,
            EventType::HttpOut => FindingType::SlowHttp,
        }
    }

    /// The `snake_case` name.
    pub open spec fn name(self) -> Seq<char> {
        match self {
            FindingType::NPlusOneSql => "n_plus_one_sql"@,
            FindingType::NPlusOneHttp => "n_plus_one_http"@,
            FindingType::RedundantSql => "redundant_sql"@,
            FindingType::RedundantHttp => "redundant_http"@,
            FindingType::SlowSql => "slow_sql"@,
            FindingType::SlowHttp => "slow_http"@,
            FindingType::ExcessiveFanout => "excessive_fanout"@,
            FindingType::ChattyService => "chatty_service"@,
            FindingType::PoolSaturation => "pool_saturation"@,
            FindingType::SerializedCalls => "serialized_calls"@,
        }
    }

    /// The label for display.
    pub open spec fn label(self) -> Seq<char> {
        match self {
            FindingType::NPlusOneSql => "N+1 SQL"@,
            FindingType::NPlusOneHttp => "N+1 HTTP"@,
            FindingType::RedundantSql => "Redundant SQL"@,
            FindingType::RedundantHttp => "Redundant HTTP"@,
            FindingType::SlowSql => "Slow SQL"@,
            FindingType::SlowHttp => "Slow HTTP"@,
            FindingType::ExcessiveFanout => "Excessive fanout"@,
            FindingType::ChattyService => "Chatty service"@,
            FindingType::PoolSaturation => "Pool saturation"@,
            FindingType::SerializedCalls => "Serialized calls"@,
        }
    }

    /// Position in the order in which findings are listed.
    pub open spec fn position(self) -> int {
        match self {
            FindingType::NPlusOneSql => 0,
            FindingType::NPlusOneHttp => 1,
            FindingType::RedundantSql => 2,
            FindingType::RedundantHttp => 3,
            FindingType::SlowSql => 4,
            FindingType::SlowHttp => 5,
            FindingType::ExcessiveFanout => 6,
            FindingType::ChattyService => 7,
            FindingType::PoolSaturation => 8,
            FindingType::SerializedCalls => 9,
        }
    }

    pub fn from_event_type_n_plus_one(event_type: &EventType) -> (r: Self)
        ensures
            r == FindingType::n_plus_one(*event_type),
    {
        match event_type {
            EventType::Sql => FindingType::NPlusOneSql,
            EventType::HttpOut => FindingType::NPlusOneHttp,
        }
    }

    pub fn from_event_type_redundant(event_type: &EventType) -> (r: Self)
        ensures
            r == FindingType::redundant(*event_type),
    {
        match event_type {
            EventType::Sql => FindingType::RedundantSql,
            EventType::HttpOut => FindingType::RedundantHttp,
        }
    }

    pub fn from_event_type_slow(event_type: &EventType) -> (r: Self)
        ensures
            r == FindingType::slow(*event_type),
    {
        match event_type {
            EventType::Sql => FindingType::SlowSql,
            EventType::HttpOut => FindingType::SlowHttp,
        }
    }

    /// The `snake_case` name.
    pub fn as_str(&self) -> (r: &'static str)
        ensures
            r@ == self.name(),
    {
        match self {
            FindingType::NPlusOneSql => "n_plus_one_sql",
            FindingType::NPlusOneHttp => "n_plus_one_http",
            FindingType::RedundantSql => "redundant_sql",
            FindingType::RedundantHttp => "redundant_http",
            FindingType::SlowSql => "slow_sql",
            FindingType::SlowHttp => "slow_http",
            FindingType::ExcessiveFanout => "excessive_fanout",
            FindingType::ChattyService => "chatty_service",
            FindingType::PoolSaturation => "pool_saturation",
            FindingType::SerializedCalls => "serialized_calls",
        }
    }

    /// A short label for display.
    pub fn display_label(&self) -> (r: &'static str)
        ensures
            r@ == self.label(),
    {
        match self {
            FindingType::NPlusOneSql => "N+1 SQL",
            FindingType::NPlusOneHttp => "N+1 HTTP",
            FindingType::RedundantSql => "Redundant SQL",
            FindingType::RedundantHttp => "Redundant HTTP",
            FindingType::SlowSql => "Slow SQL",
            FindingType::SlowHttp => "Slow HTTP",
            FindingType::ExcessiveFanout => "Excessive fanout",
            FindingType::ChattyService => "Chatty service",
            FindingType::PoolSaturation => "Pool saturation",
            FindingType::SerializedCalls => "Serialized calls",
        }
    }

    /// Whether findings of this type stand for operations that could be avoided: N+1 and redundant
    /// ones, which can be batched or cached.
    pub fn is_avoidable_io(&self) -> (r: bool)
        ensures
            r <==> (self is NPlusOneSql || self is NPlusOneHttp || self is RedundantSql
                || self is RedundantHttp),
    {
        match self {
            FindingType::NPlusOneSql => true,
            FindingType::NPlusOneHttp => true,
            FindingType::RedundantSql => true,
            FindingType::RedundantHttp => true,
            _ => false,
        }
    }

    /// Position in the order in which findings are listed.
    pub(crate) fn listed_at(&self) -> (r: u8)
        ensures
            r == self.position(),
    {
        match self {
            FindingType::NPlusOneSql => 0,
            FindingType::NPlusOneHttp => 1,
            FindingType::RedundantSql => 2,
            FindingType::RedundantHttp => 3,
            FindingType::SlowSql => 4,
            FindingType::SlowHttp => 5,
            FindingType::ExcessiveFanout => 6,
            FindingType::ChattyService => 7,
            FindingType::PoolSaturation => 8,
            FindingType::SerializedCalls => 9,
        }
    }
}

impl Severity {
    /// The `snake_case` name.
    pub open spec fn name(self) -> Seq<char> {
        match self {
            Severity::Critical => "critical"@,
            Severity::Warning => "warning"@,
            Severity::Info => "info"@,
        }
    }

    /// Position in the order from worst to mildest.
    pub open spec fn position(self) -> int {
        match self {
            Severity::Critical => 0,
            Severity::Warning => 1,
            Severity::Info => 2,
        }
    }

    /// The `snake_case` name.
    pub fn as_str(&self) -> (r: &'static str)
        ensures
            r@ == self.name(),
    {
        match self {
            Severity::Critical => "critical",
            Severity::Warning => "warning",
            Severity::Info => "info",
        }
    }

    /// Position in the order from worst to mildest.
    pub(crate) fn listed_at(&self) -> (r: u8)
        ensures
            r == self.position(),
    {
        match self {
            Severity::Critical => 0,
            Severity::Warning => 1,
            Severity::Info => 2,
        }
    }
}

/// A copy of an optional location.
pub(crate) fn copy_location(loc: &Option<CodeLocation>) -> (r: Option<CodeLocation>)
    ensures
        event::location_view(r) == event::location_view(*loc),
{
    match loc {
        Some(l) => Some(
            CodeLocation {
                function: event::copy_opt(&l.function),
                filepath: event::copy_opt(&l.filepath),
                lineno: l.lineno,
                namespace: event::copy_opt(&l.namespace),
            },
        ),
        None => None,
    }
}

fn copy_counts(a: &Vec<ServiceCount>) -> (r: Vec<ServiceCount>)
    ensures
        service_counts(r@) == service_counts(a@),
{
    let mut out: Vec<ServiceCount> = Vec::new();
    let mut i: usize = 0;
    while i < a.len()
        invariant
            i <= a@.len(),
            out@.len() == i,
            forall|k: int| 0 <= k < i ==> (#[trigger] out@[k])@ == a@[k]@,
        decreases a@.len() - i,
    {
        out.push(ServiceCount { service: a[i].service.clone(), count: a[i].count });
        i += 1;
    }
    assert(service_counts(out@) =~= service_counts(a@));
    out
}

impl Finding {
    /// A copy of the finding.
    pub fn duplicate(&self) -> (r: Finding)
        ensures
            r@ == self@,
    {
        let r = Finding {
            finding_type: self.finding_type,
            severity: self.severity,
            trace_id: self.trace_id.clone(),
            service: self.service.clone(),
            grouping: event::copy_grouping(&self.grouping),
            source_endpoint: self.source_endpoint.clone(),
            pattern: Pattern {
                template: self.pattern.template.clone(),
                occurrences: self.pattern.occurrences,
                window_ms: self.pattern.window_ms,
                distinct_params: self.pattern.distinct_params,
                occurrences_by_service: copy_counts(&self.pattern.occurrences_by_service),
            },
            suggestion: self.suggestion.clone(),
            first_timestamp: self.first_timestamp.clone(),
            last_timestamp: self.last_timestamp.clone(),
            green_impact: self.green_impact,
            confidence: self.confidence,
            classification_method: self.classification_method,
            code_location: copy_location(&self.code_location),
            instrumentation_scopes: self.instrumentation_scopes.clone(),
            suggested_fix: match &self.suggested_fix {
                Some(f) => Some(f.duplicate()),
                None => None,
            },
            signature: self.signature.clone(),
        };
        r
    }

    /// How many operations each service could have avoided, the finding's own service first.
    pub fn avoidable_by_service(&self) -> (r: Vec<ServiceCount>)
        ensures
            service_counts(r@) == self@.avoidable(),
    {
        let counts = &self.pattern.occurrences_by_service;
        let mut out: Vec<ServiceCount> = Vec::new();
        if counts.len() == 0 {
            let n = self.pattern.occurrences;
            out.push(
                ServiceCount {
                    service: self.service.clone(),
                    count: if n > 0 {
                        n - 1
                    } else {
                        0
                    },
                },
            );
            assert(service_counts(out@) =~= self@.avoidable());
            return out;
        }
        let ghost all = service_counts(counts@);
        let mut i: usize = 0;
        while i < counts.len()
            invariant
                i <= counts@.len(),
                all == service_counts(counts@),
                service_counts(out@) == own_share(self.service@, all.take(i as int)),
            decreases counts@.len() - i,
        {
            proof {
                assert(all.take(i + 1).drop_last() =~= all.take(i as int));
                assert(all.take(i + 1).last() == counts@[i as int]@);
            }
            if counts[i].service == self.service {
                let n = counts[i].count;
                let ghost before = out@;
                out.push(
                    ServiceCount {
                        service: self.service.clone(),
                        count: if n > 0 {
                            n - 1
                        } else {
                            0
                        },
                    },
                );
                assert(service_counts(out@) =~= service_counts(before).push(out@.last()@));
            }
            i += 1;
        }
        let ghost own = service_counts(out@);
        assert(all.take(i as int) =~= all);
        let mut j: usize = 0;
        assert(service_counts(out@) =~= own + other_shares(self.service@, all.take(0)));
        while j < counts.len()
            invariant
                j <= counts@.len(),
                all == service_counts(counts@),
                service_counts(out@) == own + other_shares(self.service@, all.take(j as int)),
            decreases counts@.len() - j,
        {
            proof {
                assert(all.take(j + 1).drop_last() =~= all.take(j as int));
                assert(all.take(j + 1).last() == counts@[j as int]@);
            }
            if counts[j].service != self.service {
                let ghost before = out@;
                out.push(
                    ServiceCount { service: counts[j].service.clone(), count: counts[j].count },
                );
                proof {
                    assert(service_counts(out@) =~= service_counts(before).push(out@.last()@));
                    assert(service_counts(out@) =~= own + other_shares(
                        self.service@,
                        all.take(j + 1),
                    ));
                }
            }
            j += 1;
        }
        assert(all.take(j as int) =~= all);
        out
    }
}

/// The common fields of the findings that detectors report on a group of spans of one trace.
pub(crate) struct PerTraceFindingArgs<'a> {
    pub finding_type: FindingType,
    pub severity: Severity,
    pub trace_id: &'a str,
    pub first_span: &'a NormalizedEvent,
    pub template: &'a str,
    pub occurrences: usize,
    pub window_ms: u64,
    pub distinct_params: usize,
    pub suggestion: String,
    pub first_timestamp: &'a str,
    pub last_timestamp: &'a str,
    pub code_location: Option<CodeLocation>,
    pub instrumentation_scopes: Vec<String>,
    pub classification_method: Option<ClassificationMethod>,
}

/// The finding reported on a group of spans that share a template.
pub open spec fn group_finding(
    finding_type: FindingType,
    severity: Severity,
    trace_id: Seq<char>,
    group: Seq<NormalizedEvent>,
    distinct_params: nat,
    suggestion: Seq<char>,
    method: Option<ClassificationMethod>,
) -> FindingView {
    let ts = measure::timestamps(group);
    FindingView {
        finding_type,
        severity,
        trace_id,
        service: group[0].event.service@,
        grouping: event::grouping_views(group[0].event.grouping@),
        source_endpoint: group[0].event.source.endpoint@,
        pattern: PatternView {
            template: group[0].template@,
            occurrences: group.len(),
            window_ms: measure::window(ts),
            distinct_params,
            occurrences_by_service: Seq::empty(),
        },
        suggestion,
        first_timestamp: measure::earliest(ts),
        last_timestamp: measure::latest(ts),
        green_impact: None,
        confidence: Confidence::CiBatch,
        classification_method: method,
        code_location: group[0].event.location(),
        instrumentation_scopes: event::texts(group[0].event.instrumentation_scopes@),
        suggested_fix: None,
        signature: Seq::empty(),
    }
}

/// Build a finding from the common fields.
pub(crate) fn build_per_trace_finding(args: PerTraceFindingArgs<'_>) -> (r: Finding)
    ensures
        r@ == (FindingView {
            finding_type: args.finding_type,
            severity: args.severity,
            trace_id: args.trace_id@,
            service: args.first_span.event.service@,
            grouping: event::grouping_views(args.first_span.event.grouping@),
            source_endpoint: args.first_span.event.source.endpoint@,
            pattern: PatternView {
                template: args.template@,
                occurrences: args.occurrences as nat,
                window_ms: args.window_ms,
                distinct_params: args.distinct_params as nat,
                occurrences_by_service: Seq::empty(),
            },
            suggestion: args.suggestion@,
            first_timestamp: args.first_timestamp@,
            last_timestamp: args.last_timestamp@,
            green_impact: None,
            confidence: Confidence::CiBatch,
            classification_method: args.classification_method,
            code_location: event::location_view(args.code_location),
            instrumentation_scopes: event::texts(args.instrumentation_scopes@),
            suggested_fix: None,
            signature: Seq::empty(),
        }),
{
    let r = Finding {
        finding_type: args.finding_type,
        severity: args.severity,
        trace_id: args.trace_id.to_string(),
        service: args.first_span.event.service.clone(),
        grouping: event::copy_grouping(&args.first_span.event.grouping),
        source_endpoint: args.first_span.event.source.endpoint.clone(),
        pattern: Pattern {
            template: args.template.to_string(),
            occurrences: args.occurrences,
            window_ms: args.window_ms,
            distinct_params: args.distinct_params,
            occurrences_by_service: Vec::new(),
        },
        suggestion: args.suggestion,
        first_timestamp: args.first_timestamp.to_string(),
        last_timestamp: args.last_timestamp.to_string(),
        green_impact: None,
        confidence: Confidence::default(),
        classification_method: args.classification_method,
        code_location: args.code_location,
        instrumentation_scopes: args.instrumentation_scopes,
        suggested_fix: None,
        signature: String::new(),
    };
    assert(service_counts(r.pattern.occurrences_by_service@) =~= Seq::empty());
    r
}

/// A critical finding is worse than a warning, and a warning than an information.
pub proof fn law_severities_go_from_worst_to_mildest(a: Severity, b: Severity)
    ensures
        a.position() == b.position() <==> a == b,
        a.position() < b.position() <==> (a is Critical && b !is Critical) || (a is Warning
            && b is Info),
{
}

/// Findings are listed N+1 first, then redundant and slow operations, each with SQL before HTTP,
/// then fanout, chatty services, pool saturation and serialized calls.
pub proof fn law_types_are_listed_in_their_order(a: FindingType, b: FindingType)
    ensures
        a.position() == b.position() <==> a == b,
        a is NPlusOneSql && b !is NPlusOneSql ==> a.position() < b.position(),
        a is NPlusOneHttp && !(b is NPlusOneSql || b is NPlusOneHttp) ==> a.position()
            < b.position(),
        a is RedundantSql && (b is RedundantHttp || b is SlowSql || b is SlowHttp) ==> a.position()
            < b.position(),
        a is RedundantHttp && (b is SlowSql || b is SlowHttp) ==> a.position() < b.position(),
        a is SlowSql && b is SlowHttp ==> a.position() < b.position(),
        a is SlowHttp && b is ExcessiveFanout ==> a.position() < b.position(),
        a is ExcessiveFanout && b is ChattyService ==> a.position() < b.position(),
        a is ChattyService && b is PoolSaturation ==> a.position() < b.position(),
        a is PoolSaturation && b is SerializedCalls ==> a.position() < b.position(),
{
}

/// The value of a finding tells every field of it.
pub proof fn law_value_tells_every_field(f: Finding)
    ensures
        f@.finding_type == f.finding_type,
        f@.severity == f.severity,
        f@.trace_id == f.trace_id@,
        f@.service == f.service@,
        f@.source_endpoint == f.source_endpoint@,
        f@.suggestion == f.suggestion@,
        f@.first_timestamp == f.first_timestamp@,
        f@.last_timestamp == f.last_timestamp@,
        f@.green_impact == f.green_impact,
        f@.confidence == f.confidence,
        f@.classification_method == f.classification_method,
        f@.signature == f.signature@,
        f@.pattern.template == f.pattern.template@,
        f@.pattern.occurrences == f.pattern.occurrences,
        f@.pattern.window_ms == f.pattern.window_ms,
        f@.pattern.distinct_params == f.pattern.distinct_params,
        f@.pattern.occurrences_by_service == f.pattern.occurrences_by_service@.map_values(
            |c: ServiceCount| (c.service@, c.count as nat),
        ),
        f@.grouping == f.grouping@.map_values(|a: GroupingAttribute| (a.key@, a.value@)),
        f@.instrumentation_scopes == f.instrumentation_scopes@.map_values(|t: String| t@),
        f@.code_location is Some <==> f.code_location is Some,
        f.code_location is Some ==> {
            let (v, l) = (f@.code_location->0, f.code_location->0);
            &&& v.lineno == l.lineno
            &&& v.function is Some <==> l.function is Some
            &&& l.function is Some ==> v.function->0 == l.function->0@
            &&& v.filepath is Some <==> l.filepath is Some
            &&& l.filepath is Some ==> v.filepath->0 == l.filepath->0@
            &&& v.namespace is Some <==> l.namespace is Some
            &&& l.namespace is Some ==> v.namespace->0 == l.namespace->0@
        },
        f@.suggested_fix is Some <==> f.suggested_fix is Some,
        f.suggested_fix is Some ==> {
            let (v, x) = (f@.suggested_fix->0, f.suggested_fix->0);
            &&& v.pattern == x.pattern@
            &&& v.framework == x.framework@
            &&& v.recommendation == x.recommendation@
            &&& v.reference_url is Some <==> x.reference_url is Some
            &&& x.reference_url is Some ==> v.reference_url->0 == x.reference_url->0@
        },
        f.grouping@.len() > 0 ==> f@.identity() == Some(
            (f.grouping@[0].key@, f.grouping@[0].value@),
        ),
        f.grouping@.len() == 0 ==> f@.identity() is None,
{
    assert(f@.pattern.occurrences_by_service =~= f.pattern.occurrences_by_service@.map_values(
        |c: ServiceCount| (c.service@, c.count as nat),
    ));
    assert(f@.grouping =~= f.grouping@.map_values(|a: GroupingAttribute| (a.key@, a.value@)));
    assert(f@.instrumentation_scopes =~= f.instrumentation_scopes@.map_values(|t: String| t@));
}

proof fn lemma_shares(service: Seq<char>, counts: Seq<(Seq<char>, nat)>)
    ensures
        own_share(service, counts) == counts.filter(
            |c: (Seq<char>, nat)| c.0 == service,
        ).map_values(
            |c: (Seq<char>, nat)|
                (
                    c.0,
                    if c.1 > 0 {
                        (c.1 - 1) as nat
                    } else {
                        0
                    },
                ),
        ),
        other_shares(service, counts) == counts.filter(|c: (Seq<char>, nat)| c.0 != service),
    decreases counts.len(),
{
    reveal(Seq::filter);
    let own = |c: (Seq<char>, nat)| c.0 == service;
    let other = |c: (Seq<char>, nat)| c.0 != service;
    let less = |c: (Seq<char>, nat)|
        (
            c.0,
            if c.1 > 0 {
                (c.1 - 1) as nat
            } else {
                0
            },
        );
    if counts.len() > 0 {
        lemma_shares(service, counts.drop_last());
        assert(counts.filter(own).map_values(less) =~= own_share(service, counts));
        assert(counts.filter(other) =~= other_shares(service, counts));
    } else {
        assert(counts.filter(own).map_values(less) =~= own_share(service, counts));
        assert(counts.filter(other) =~= other_shares(service, counts));
    }
}

/// All occurrences of a finding but one could have been avoided. Where they are told apart by
/// service, the finding's own service keeps the one; its entries come first, then those of the
/// others, which could have avoided all of theirs.
pub proof fn law_all_but_one_could_be_avoided(f: FindingView)
    ensures
        ({
            let counts = f.pattern.occurrences_by_service;
            &&& counts.len() == 0 && f.pattern.occurrences > 0 ==> f.avoidable() == seq![
                (f.service, (f.pattern.occurrences - 1) as nat),
            ]
            &&& counts.len() > 0 ==> f.avoidable() == counts.filter(
                |c: (Seq<char>, nat)| c.0 == f.service,
            ).map_values(
                |c: (Seq<char>, nat)|
                    (
                        c.0,
                        if c.1 > 0 {
                            (c.1 - 1) as nat
                        } else {
                            0
                        },
                    ),
            ) + counts.filter(|c: (Seq<char>, nat)| c.0 != f.service)
        }),
{
    lemma_shares(f.service, f.pattern.occurrences_by_service);
}

} // verus!

//! Diff stage: compare two analysis reports and produce a delta.
//!
//! Findings are matched by type, service, endpoint and template.

use crate::arith;
use crate::detect;
use crate::detect::finding;
use crate::detect::grouping;
use crate::detect::grouping::Classifier;
use crate::detect::{Finding, FindingType, FindingView, PatternView, Severity};
use crate::order;
use crate::order::Ranked;
use crate::permutation;
use crate::report::{PerEndpointIoOps, Report};
use crate::text;
use vstd::prelude::*;

verus! {

/// What makes two findings of different runs the same anti-pattern.
#[derive(Debug, Clone, PartialEq, Eq)]
pub struct IdentityKey {
    pub finding_type: FindingType,
    pub service: String,
    pub source_endpoint: String,
    pub template: String,
}

/// The mathematical value of an [`IdentityKey`].
pub struct Identity {
    pub finding_type: FindingType,
    pub service: Seq<char>,
    pub source_endpoint: Seq<char>,
    pub template: Seq<char>,
}

impl View for IdentityKey {
    type V = Identity;

    open spec fn view(&self) -> Identity {
        Identity {
            finding_type: self.finding_type,
            service: self.service@,
            source_endpoint: self.source_endpoint@,
            template: self.template@,
        }
    }
}

/// The identity of a finding.
pub open spec fn identity(f: FindingView) -> Identity {
    Identity {
        finding_type: f.finding_type,
        service: f.service,
        source_endpoint: f.source_endpoint,
        template: f.pattern.template,
    }
}

/// The order of identities: by type, service, endpoint and template.
pub open spec fn identity_lt(a: Identity, b: Identity) -> bool {
    ||| a.finding_type.position() < b.finding_type.position()
    ||| a.finding_type == b.finding_type && {
        ||| text::text_lt(a.service, b.service)
        ||| a.service == b.service && {
            ||| text::text_lt(a.source_endpoint, b.source_endpoint)
            ||| a.source_endpoint == b.source_endpoint && text::text_lt(a.template, b.template)
        }
    }
}

/// Delta between two analysis runs.
#[derive(Debug, Clone)]
pub struct DiffReport {
    /// Findings present in `after` but absent from `before`.
    pub new_findings: Vec<Finding>,
    /// Findings present in `before` but absent from `after`.
    pub resolved_findings: Vec<Finding>,
    /// Findings present in both runs whose worst severity differs, regressions first.
    pub severity_changes: Vec<SeverityChange>,
    /// Per-endpoint I/O deltas, the largest regressions first.
    pub endpoint_metric_deltas: Vec<EndpointDelta>,
}

/// A finding whose worst severity changed between the two runs.
#[derive(Debug, Clone)]
pub struct SeverityChange {
    /// The finding as it is in the later run.
    pub finding: Finding,
    pub before_severity: Severity,
    pub after_severity: Severity,
}

/// The mathematical value of a [`SeverityChange`].
pub struct SeverityChangeView {
    pub finding: FindingView,
    pub before_severity: Severity,
    pub after_severity: Severity,
}

impl View for SeverityChange {
    type V = SeverityChangeView;

    open spec fn view(&self) -> SeverityChangeView {
        SeverityChangeView {
            finding: self.finding@,
            before_severity: self.before_severity,
            after_severity: self.after_severity,
        }
    }
}

impl SeverityChangeView {
    /// Whether the severity became worse.
    pub open spec fn regressed(self) -> bool {
        self.after_severity.position() < self.before_severity.position()
    }
}

impl SeverityChange {
    /// `true` when the after severity is worse than the before severity.
    pub fn is_regression(&self) -> (r: bool)
        ensures
            r == self@.regressed(),
    {
        self.after_severity.listed_at() < self.before_severity.listed_at()
    }
}

/// Per-endpoint I/O count delta between two runs.
#[derive(Debug, Clone, PartialEq, Eq)]
pub struct EndpointDelta {
    pub service: String,
    pub endpoint: String,
    pub before_io_ops: usize,
    pub after_io_ops: usize,
    /// `after - before`: positive for a regression, negative for an improvement.
    pub delta: i64,
}

/// The mathematical value of an [`EndpointDelta`].
pub struct EndpointDeltaView {
    pub service: Seq<char>,
    pub endpoint: Seq<char>,
    pub before_io_ops: usize,
    pub after_io_ops: usize,
    pub delta: i64,
}

impl View for EndpointDelta {
    type V = EndpointDeltaView;

    open spec fn view(&self) -> EndpointDeltaView {
        EndpointDeltaView {
            service: self.service@,
            endpoint: self.endpoint@,
            before_io_ops: self.before_io_ops,
            after_io_ops: self.after_io_ops,
            delta: self.delta,
        }
    }
}

/// Findings of one identity.
pub struct SameIdentity;

impl Classifier<Finding> for SameIdentity {
    type Key = Identity;

    open spec fn judges(&self, item: Finding) -> bool {
        true
    }

    open spec fn included(&self, item: Finding) -> bool {
        true
    }

    open spec fn key(&self, item: Finding) -> Identity {
        identity(item@)
    }

    fn includes(&self, item: &Finding) -> (r: bool) {
        true
    }

    fn same_key(&self, a: &Finding, b: &Finding) -> (r: bool) {
        let r = a.finding_type == b.finding_type && a.service == b.service && a.source_endpoint
            == b.source_endpoint && a.pattern.template == b.pattern.template;
        r
    }
}

/// The first finding among those of the worst severity.
pub open spec fn worst(group: Seq<Finding>) -> Finding
    decreases group.len(),
{
    if group.len() <= 1 {
        group[0]
    } else {
        let kept = worst(group.drop_last());
        if group.last().severity.position() < kept.severity.position() {
            group.last()
        } else {
            kept
        }
    }
}

/// How often the patterns of the findings occurred in all.
pub open spec fn total_occurrences(group: Seq<Finding>) -> nat
    decreases group.len(),
{
    if group.len() == 0 {
        0
    } else {
        total_occurrences(group.drop_last()) + group.last().pattern.occurrences as nat
    }
}

/// A finding whose pattern occurred so often.
pub open spec fn with_occurrences(f: FindingView, occurrences: nat) -> FindingView {
    FindingView { pattern: PatternView { occurrences, ..f.pattern }, ..f }
}

/// What stands for findings of one identity: the worst of them, with the occurrences of all.
pub open spec fn collapse(group: Seq<Finding>) -> FindingView {
    with_occurrences(
        worst(group)@,
        arith::capped_count(total_occurrences(group) as int) as nat,
    )
}

/// The findings of a run, one for each identity.
pub open spec fn collapsed(findings: Seq<Finding>) -> Seq<FindingView> {
    grouping::groups(SameIdentity {  }, findings).map_values(|g: Seq<Finding>| collapse(g))
}

/// Whether a finding of the run has the identity.
pub open spec fn occurs(findings: Seq<Finding>, id: Identity) -> bool {
    exists|i: int| 0 <= i < findings.len() && identity((#[trigger] findings[i])@) == id
}

/// Whether one finding is listed before another; findings that are listed alike go by identity.
pub open spec fn listed_first(a: FindingView, b: FindingView) -> bool {
    detect::listed_before(a, b) && (!detect::listed_before(b, a) || identity_lt(
        identity(a),
        identity(b),
    ))
}

/// Whether a list holds the collapsed findings of `present` that do not occur in `absent`, each
/// once, in listing order.
pub open spec fn lists_only_in(
    list: Seq<FindingView>,
    present: Seq<Finding>,
    absent: Seq<Finding>,
) -> bool {
    &&& permutation::in_order(list, |a: FindingView, b: FindingView| listed_first(a, b))
    &&& forall|f: FindingView| #[trigger]
        list.contains(f) <==> collapsed(present).contains(f) && !occurs(absent, identity(f))
}

/// Whether a finding's worst severity differs between the runs.
pub open spec fn is_change(
    c: SeverityChangeView,
    before: Seq<Finding>,
    after: Seq<Finding>,
) -> bool {
    &&& collapsed(after).contains(c.finding)
    &&& c.after_severity == c.finding.severity
    &&& c.before_severity != c.after_severity
    &&& exists|b: FindingView| #[trigger]
        collapsed(before).contains(b) && identity(b) == identity(c.finding) && b.severity
            == c.before_severity
}

/// The order of severity changes: regressions first, then by identity.
pub open spec fn change_first(a: SeverityChangeView, b: SeverityChangeView) -> bool {
    if a.regressed() == b.regressed() {
        identity_lt(identity(a.finding), identity(b.finding))
    } else {
        a.regressed()
    }
}

/// Whether a list holds the severity changes between the runs, each once, in order.
pub open spec fn lists_changes(
    list: Seq<SeverityChangeView>,
    before: Seq<Finding>,
    after: Seq<Finding>,
) -> bool {
    &&& permutation::in_order(
        list,
        |a: SeverityChangeView, b: SeverityChangeView| change_first(a, b),
    )
    &&& forall|c: SeverityChangeView| #[trigger]
        list.contains(c) <==> is_change(c, before, after)
}

/// The service and endpoint of an entry.
pub open spec fn place(e: PerEndpointIoOps) -> (Seq<char>, Seq<char>) {
    (e.service@, e.endpoint@)
}

/// How many operations are reported at a place: by its last entry, none without an entry.
pub open spec fn ops_at(entries: Seq<PerEndpointIoOps>, at: (Seq<char>, Seq<char>)) -> usize
    decreases entries.len(),
{
    if entries.len() == 0 {
        0
    } else if place(entries.last()) == at {
        entries.last().io_ops
    } else {
        ops_at(entries.drop_last(), at)
    }
}

/// Whether a place has an entry.
pub open spec fn reported(entries: Seq<PerEndpointIoOps>, at: (Seq<char>, Seq<char>)) -> bool {
    exists|i: int| 0 <= i < entries.len() && place(#[trigger] entries[i]) == at
}

/// How much a count grew, kept within the range of `i64`.
pub open spec fn growth(before: usize, after: usize) -> i64 {
    if after - before > i64::MAX {
        i64::MAX
    } else if after - before < i64::MIN {
        i64::MIN
    } else {
        (after - before) as i64
    }
}

/// The delta at a place.
pub open spec fn delta_at(
    before: Seq<PerEndpointIoOps>,
    after: Seq<PerEndpointIoOps>,
    at: (Seq<char>, Seq<char>),
) -> EndpointDeltaView {
    EndpointDeltaView {
        service: at.0,
        endpoint: at.1,
        before_io_ops: ops_at(before, at),
        after_io_ops: ops_at(after, at),
        delta: growth(ops_at(before, at), ops_at(after, at)),
    }
}

/// The order of places: by service, then endpoint.
pub open spec fn place_lt(a: (Seq<char>, Seq<char>), b: (Seq<char>, Seq<char>)) -> bool {
    text::text_lt(a.0, b.0) || (a.0 == b.0 && text::text_lt(a.1, b.1))
}

/// The order of deltas: the largest first, equal ones by place.
pub open spec fn delta_first(a: EndpointDeltaView, b: EndpointDeltaView) -> bool {
    a.delta > b.delta || (a.delta == b.delta && place_lt(
        (a.service, a.endpoint),
        (b.service, b.endpoint),
    ))
}

/// Whether a delta is that of a place whose count differs between the runs.
pub open spec fn is_delta(
    d: EndpointDeltaView,
    before: Seq<PerEndpointIoOps>,
    after: Seq<PerEndpointIoOps>,
) -> bool {
    let at = (d.service, d.endpoint);
    &&& reported(before, at) || reported(after, at)
    &&& ops_at(before, at) != ops_at(after, at)
    &&& d == delta_at(before, after, at)
}

/// Whether a list holds the delta of each place whose count differs, each once, in order.
pub open spec fn lists_deltas(
    list: Seq<EndpointDeltaView>,
    before: Seq<PerEndpointIoOps>,
    after: Seq<PerEndpointIoOps>,
) -> bool {
    &&& permutation::in_order(
        list,
        |a: EndpointDeltaView, b: EndpointDeltaView| delta_first(a, b),
    )
    &&& forall|d: EndpointDeltaView| #[trigger] list.contains(d) <==> is_delta(d, before, after)
}

/// The mathematical value of each change.
pub open spec fn change_views(s: Seq<SeverityChange>) -> Seq<SeverityChangeView> {
    s.map_values(|c: SeverityChange| c@)
}

/// The mathematical value of each delta.
pub open spec fn delta_views(s: Seq<EndpointDelta>) -> Seq<EndpointDeltaView> {
    s.map_values(|d: EndpointDelta| d@)
}

/// Whether a diff is the delta between two reports.
pub open spec fn describes(d: DiffReport, before: Report, after: Report) -> bool {
    &&& lists_only_in(
        finding::finding_views(d.new_findings@),
        after.findings@,
        before.findings@,
    )
    &&& lists_only_in(
        finding::finding_views(d.resolved_findings@),
        before.findings@,
        after.findings@,
    )
    &&& lists_changes(change_views(d.severity_changes@), before.findings@, after.findings@)
    &&& lists_deltas(
        delta_views(d.endpoint_metric_deltas@),
        before.per_endpoint_io_ops@,
        after.per_endpoint_io_ops@,
    )
}

proof fn lemma_identity_order(a: Identity, b: Identity, c: Identity)
    ensures
        identity_lt(a, b) && identity_lt(b, c) ==> identity_lt(a, c),
        identity_lt(a, b) ==> !identity_lt(b, a),
        identity_lt(a, b) || identity_lt(b, a) || a == b,
        !identity_lt(a, b) && !identity_lt(b, c) ==> !identity_lt(a, c),
        !identity_lt(b, a) && !identity_lt(c, b) ==> !identity_lt(c, a),
{
    text::lemma_text_lt_triple(a.service, b.service, c.service);
    text::lemma_text_lt_triple(a.source_endpoint, b.source_endpoint, c.source_endpoint);
    text::lemma_text_lt_triple(a.template, b.template, c.template);
}

proof fn lemma_place_order(
    a: (Seq<char>, Seq<char>),
    b: (Seq<char>, Seq<char>),
    c: (Seq<char>, Seq<char>),
)
    ensures
        place_lt(a, b) ==> !place_lt(b, a),
        place_lt(a, b) || place_lt(b, a) || a == b,
        !place_lt(b, a) && !place_lt(c, b) ==> !place_lt(c, a),
{
    text::lemma_text_lt_triple(a.0, b.0, c.0);
    text::lemma_text_lt_triple(a.1, b.1, c.1);
}

/// A finding under its identity.
pub struct Identified {
    pub key: IdentityKey,
    pub finding: Finding,
}

fn key_precedes(a: &IdentityKey, b: &IdentityKey) -> (r: bool)
    ensures
        r == identity_lt(a@, b@),
{
    let (t, u) = (a.finding_type.listed_at(), b.finding_type.listed_at());
    if t != u {
        return t < u;
    }
    proof {
        lemma_identity_order(a@, b@, b@);
        text::lemma_text_lt_triple(a.service@, b.service@, b.service@);
        text::lemma_text_lt_triple(a.source_endpoint@, b.source_endpoint@, b.source_endpoint@);
    }
    if a.service != b.service {
        return text::precedes(a.service.as_str(), b.service.as_str());
    }
    if a.source_endpoint != b.source_endpoint {
        return text::precedes(a.source_endpoint.as_str(), b.source_endpoint.as_str());
    }
    text::precedes(a.template.as_str(), b.template.as_str())
}

impl Ranked for Identified {
    open spec fn rank_le(&self, other: &Self) -> bool {
        !identity_lt(other.key@, self.key@)
    }

    proof fn rank_total(a: Self, b: Self) {
        lemma_identity_order(a.key@, b.key@, b.key@);
    }

    proof fn rank_transitive(a: Self, b: Self, c: Self) {
        lemma_identity_order(a.key@, b.key@, c.key@);
    }

    fn may_precede(&self, other: &Self) -> (r: bool) {
        !key_precedes(&other.key, &self.key)
    }
}

/// The identity of a finding.
fn identity_of(finding: &Finding) -> (r: IdentityKey)
    ensures
        r@ == identity(finding@),
{
    IdentityKey {
        finding_type: finding.finding_type,
        service: finding.service.clone(),
        source_endpoint: finding.source_endpoint.clone(),
        template: finding.pattern.template.clone(),
    }
}

/// The value of each entry.
pub open spec fn entry_views(map: Seq<Identified>) -> Seq<FindingView> {
    map.map_values(|e: Identified| e.finding@)
}

/// Whether a map holds the collapsed findings in the order of their identities.
pub open spec fn is_identity_map(map: Seq<Identified>, findings: Seq<Finding>) -> bool {
    &&& permutation::in_order(
        map,
        |a: Identified, b: Identified| identity_lt(identity(a.finding@), identity(b.finding@)),
    )
    &&& forall|i: int|
        0 <= i < map.len() ==> (#[trigger] map[i]).key@ == identity(map[i].finding@)
    &&& forall|f: FindingView| #[trigger]
        entry_views(map).contains(f) <==> collapsed(findings).contains(f)
}

proof fn lemma_worst(group: Seq<Finding>)
    requires
        group.len() > 0,
    ensures
        group.contains(worst(group)),
        forall|i: int|
            0 <= i < group.len() ==> worst(group).severity.position() <= (
            #[trigger] group[i]).severity.position(),
    decreases group.len(),
{
    if group.len() > 1 {
        let t = group.drop_last();
        lemma_worst(t);
        let k = choose|k: int| 0 <= k < t.len() && t[k] == worst(t);
        assert(group[k] == worst(t));
        assert forall|i: int| 0 <= i < group.len() implies worst(group).severity.position() <= (
        #[trigger] group[i]).severity.position() by {
            if i < t.len() {
                assert(t[i] == group[i]);
            }
        }
    } else {
        assert(group[0] == worst(group));
    }
}

proof fn lemma_collapsed_identity(findings: Seq<Finding>, k: Identity)
    requires
        grouping::classes(SameIdentity {  }, findings).contains(k),
    ensures
        identity(collapse(grouping::class_members(SameIdentity {  }, findings, k))) == k,
        grouping::class_members(SameIdentity {  }, findings, k).len() > 0,
{
    let group = grouping::class_members(SameIdentity {  }, findings, k);
    grouping::lemma_class_members(SameIdentity {  }, findings, k);
    lemma_worst(group);
    let i = choose|i: int| 0 <= i < group.len() && group[i] == worst(group);
    assert(SameIdentity {  }.key(group[i]) == k);
}

/// Where in a map the identity stands.
fn position_of(map: &Vec<Identified>, key: &IdentityKey) -> (r: Option<usize>)
    ensures
        match r {
            Some(i) => i < map@.len() && map@[i as int].key@ == key@,
            None => forall|i: int| 0 <= i < map@.len() ==> (#[trigger] map@[i]).key@ != key@,
        },
{
    let mut i: usize = 0;
    while i < map.len()
        invariant
            i <= map@.len(),
            forall|k: int| 0 <= k < i ==> (#[trigger] map@[k]).key@ != key@,
        decreases map@.len() - i,
    {
        let k = &map[i].key;
        if k.finding_type == key.finding_type && k.service == key.service && k.source_endpoint
            == key.source_endpoint && k.template == key.template {
            return Some(i);
        }
        i += 1;
    }
    None
}

/// What stands for the findings at the given positions.
fn collapse_at(findings: &Vec<Finding>, idx: &Vec<usize>) -> (r: Finding)
    requires
        grouping::ascending_positions(idx@, findings@.len()),
        idx@.len() > 0,
    ensures
        r@ == collapse(grouping::at_positions(findings@, idx@)),
{
    let ghost group = grouping::at_positions(findings@, idx@);
    let mut kept: usize = idx[0];
    let mut summed: usize = findings[idx[0]].pattern.occurrences;
    let mut i: usize = 1;
    proof {
        let first = group.take(1);
        assert(first.drop_last() =~= Seq::<Finding>::empty());
        assert(total_occurrences(first.drop_last()) == 0);
        assert(first.last() == findings@[idx@[0] as int]);
        assert(total_occurrences(first) == findings@[idx@[0] as int].pattern.occurrences);
    }
    while i < idx.len()
        invariant
            group == grouping::at_positions(findings@, idx@),
            grouping::ascending_positions(idx@, findings@.len()),
            1 <= i <= idx@.len(),
            kept < findings@.len(),
            findings@[kept as int] == worst(group.take(i as int)),
            summed == arith::capped_count(total_occurrences(group.take(i as int)) as int),
        decreases idx@.len() - i,
    {
        let next = idx[i];
        proof {
            assert(group.take(i + 1).drop_last() =~= group.take(i as int));
            assert(group.take(i + 1).last() == findings@[next as int]);
        }
        if findings[next].severity.listed_at() < findings[kept].severity.listed_at() {
            kept = next;
        }
        summed = arith::capped_count_sum(summed, findings[next].pattern.occurrences);
        i += 1;
    }
    assert(group.take(i as int) =~= group);
    let mut finding = findings[kept].duplicate();
    finding.pattern.occurrences = summed;
    finding
}

/// The findings of a run under their identities: of findings that share an identity, the worst one
/// is kept (the first of several) and their occurrences are summed.
fn build_identity_map(findings: &Vec<Finding>) -> (r: Vec<Identified>)
    ensures
        is_identity_map(r@, findings@),
{
    let by_identity = SameIdentity {  };
    let groups = grouping::group_items(&by_identity, findings);
    let ghost keys = grouping::classes(by_identity, findings@);
    let ghost all = grouping::groups(by_identity, findings@);
    let mut out: Vec<Identified> = Vec::new();
    let mut k: usize = 0;
    while k < groups.len()
        invariant
            by_identity == (SameIdentity {  }),
            keys == grouping::classes(by_identity, findings@),
            all == grouping::groups(by_identity, findings@),
            groups@.len() == all.len(),
            forall|m: int|
                0 <= m < groups@.len() ==> grouping::at_positions(
                    findings@,
                    (#[trigger] groups@[m])@,
                ) == all[m],
            forall|m: int|
                0 <= m < groups@.len() ==> grouping::ascending_positions(
                    (#[trigger] groups@[m])@,
                    findings@.len(),
                ) && groups@[m]@.len() > 0,
            k <= groups@.len(),
            out@.len() == k,
            forall|m: int|
                0 <= m < k ==> (#[trigger] out@[m]).finding@ == collapse(all[m])
                    && out@[m].key@ == keys[m] && identity(out@[m].finding@) == keys[m],
        decreases groups@.len() - k,
    {
        let finding = collapse_at(findings, &groups[k]);
        let key = identity_of(&finding);
        proof {
            assert(keys.contains(keys[k as int]));
            lemma_collapsed_identity(findings@, keys[k as int]);
            assert(all[k as int] == grouping::class_members(
                by_identity,
                findings@,
                keys[k as int],
            ));
        }
        out.push(Identified { key, finding });
        k += 1;
    }
    let ghost unsorted = out@;
    let r = order::sort_ranked(out);
    proof {
        broadcast use vstd::seq_lib::group_to_multiset_ensures;

        order::lemma_ranked(unsorted);
        grouping::lemma_classes_distinct(by_identity, findings@);
        let apart = |a: Identified, b: Identified| a.key@ != b.key@;
        assert(permutation::pairwise(unsorted, apart));
        permutation::lemma_pairwise_permutation(unsorted, r@, apart);
        assert forall|i: int| 0 <= i < r@.len() implies (#[trigger] r@[i]).key@ == identity(
            r@[i].finding@,
        ) by {
            assert(r@.contains(r@[i]));
            assert(unsorted.to_multiset().count(r@[i]) > 0);
            let m = choose|m: int| 0 <= m < unsorted.len() && unsorted[m] == r@[i];
        }
        assert forall|i: int, j: int|
            #![trigger r@[i], r@[j]]
            0 <= i < j < r@.len() implies identity_lt(
            identity(r@[i].finding@),
            identity(r@[j].finding@),
        ) by {
            assert(r@[i].rank_le(&r@[j]));
            assert(apart(r@[i], r@[j]));
            lemma_identity_order(r@[i].key@, r@[j].key@, r@[j].key@);
        }
        assert(entry_views(unsorted) =~= collapsed(findings@));
        permutation::lemma_images_permutation(
            unsorted,
            r@,
            |e: Identified| e.finding@,
        );
    }
    r
}

proof fn lemma_occurs(map: Seq<Identified>, findings: Seq<Finding>, id: Identity)
    requires
        is_identity_map(map, findings),
    ensures
        occurs(findings, id) <==> exists|i: int|
            0 <= i < map.len() && (#[trigger] map[i]).key@ == id,
{
    let g = SameIdentity {  };
    let keys = grouping::classes(g, findings);
    grouping::lemma_class_listed(g, findings, id);
    if occurs(findings, id) {
        let i = choose|i: int| 0 <= i < findings.len() && identity((#[trigger] findings[i])@) == id;
        assert(g.included(findings[i]) && g.key(findings[i]) == id);
        let k = choose|k: int| 0 <= k < keys.len() && keys[k] == id;
        lemma_collapsed_identity(findings, id);
        let f = collapse(grouping::class_members(g, findings, id));
        assert(collapsed(findings)[k] == f);
        assert(entry_views(map).contains(f));
        let m = choose|m: int| 0 <= m < entry_views(map).len() && entry_views(map)[m] == f;
        assert(map[m].key@ == id);
    }
    if exists|i: int| 0 <= i < map.len() && (#[trigger] map[i]).key@ == id {
        let i = choose|i: int| 0 <= i < map.len() && (#[trigger] map[i]).key@ == id;
        let f = map[i].finding@;
        assert(entry_views(map)[i] == f);
        assert(entry_views(map).contains(f));
        let k = choose|k: int| 0 <= k < collapsed(findings).len() && collapsed(findings)[k] == f;
        assert(keys.contains(keys[k]));
        lemma_collapsed_identity(findings, keys[k]);
        assert(keys[k] == id);
        let j = choose|j: int|
            0 <= j < findings.len() && g.included(#[trigger] findings[j]) && g.key(findings[j])
                == id;
        assert(identity(findings[j]@) == id);
    }
}

/// The entries of `present` whose identity `absent` lacks, in listing order.
fn only_in(
    present: &Vec<Identified>,
    absent: &Vec<Identified>,
    Ghost(here): Ghost<Seq<Finding>>,
    Ghost(there): Ghost<Seq<Finding>>,
) -> (r: Vec<Finding>)
    requires
        is_identity_map(present@, here),
        is_identity_map(absent@, there),
    ensures
        lists_only_in(finding::finding_views(r@), here, there),
{
    let mut out: Vec<Finding> = Vec::new();
    let mut i: usize = 0;
    let ghost id_first = |a: Finding, b: Finding| identity_lt(identity(a@), identity(b@));
    while i < present.len()
        invariant
            is_identity_map(present@, here),
            is_identity_map(absent@, there),
            id_first == (|a: Finding, b: Finding| identity_lt(identity(a@), identity(b@))),
            i <= present@.len(),
            permutation::in_order(out@, id_first),
            forall|k: int| #![trigger out@[k]]
                0 <= k < out@.len() ==> !occurs(there, identity(out@[k]@)) && exists|m: int|
                    0 <= m < i && (#[trigger] present@[m]).finding@ == out@[k]@,
            forall|m: int|
                0 <= m < i && !occurs(there, (#[trigger] present@[m]).key@) ==> exists|k: int|
                    0 <= k < out@.len() && (#[trigger] out@[k])@ == present@[m].finding@,
        decreases present@.len() - i,
    {
        let ghost before = out@;
        let ghost id = present@[i as int].key@;
        proof {
            lemma_occurs(absent@, there, id);
        }
        if position_of(absent, &present[i].key).is_none() {
            out.push(present[i].finding.duplicate());
            proof {
                assert forall|k: int, j: int|
                    #![trigger out@[k], out@[j]]
                    0 <= k < j < out@.len() implies id_first(out@[k], out@[j]) by {
                    if j == before.len() {
                        assert(out@[k] == before[k]);
                        let m = choose|m: int|
                            0 <= m < i && (#[trigger] present@[m]).finding@ == before[k]@;
                        assert(present@[m].finding@ == out@[k]@ && present@[i as int].finding@
                            == out@[j]@);
                    } else {
                        assert(out@[k] == before[k] && out@[j] == before[j]);
                    }
                }
                assert forall|m: int|
                    0 <= m < i + 1 && !occurs(there, (#[trigger] present@[m]).key@) implies exists|
                    k: int,
                |
                    0 <= k < out@.len() && (#[trigger] out@[k])@ == present@[m].finding@ by {
                    if m < i {
                        let k = choose|k: int|
                            0 <= k < before.len() && (#[trigger] before[k])@
                                == present@[m].finding@;
                        assert(out@[k] == before[k]);
                    } else {
                        assert(out@[before.len() as int]@ == present@[m].finding@);
                    }
                }
                assert forall|k: int| #![trigger out@[k]]
                    0 <= k < out@.len() implies !occurs(there, identity(out@[k]@)) && exists|m: int|
                    0 <= m < i + 1 && (#[trigger] present@[m]).finding@ == out@[k]@ by {
                    if k < before.len() {
                        assert(out@[k] == before[k]);
                        let m = choose|m: int|
                            0 <= m < i && (#[trigger] present@[m]).finding@ == before[k]@;
                        assert(present@[m].finding@ == out@[k]@);
                    } else {
                        assert(present@[i as int].finding@ == out@[k]@);
                    }
                }
            }
        }
        i += 1;
    }
    let ghost unsorted = out@;
    detect::sort_findings(&mut out);
    proof {
        order::lemma_ranked(unsorted);
        order::lemma_ranked_stable(unsorted, id_first);
        let list = finding::finding_views(out@);
        let plain = finding::finding_views(unsorted);
        permutation::lemma_images_permutation(unsorted, out@, |f: Finding| f@);
        assert forall|k: int, j: int|
            #![trigger list[k], list[j]]
            0 <= k < j < list.len() implies listed_first(list[k], list[j]) by {
            assert(list[k] == out@[k]@ && list[j] == out@[j]@);
            assert(out@[k].rank_le(&out@[j]));
            assert(!out@[j].rank_le(&out@[k]) || id_first(out@[k], out@[j]));
        }
        assert forall|f: FindingView| #[trigger]
            list.contains(f) <==> collapsed(here).contains(f) && !occurs(there, identity(f)) by {
            if list.contains(f) {
                assert(plain.contains(f));
                let k = choose|k: int| 0 <= k < plain.len() && plain[k] == f;
                assert(unsorted[k]@ == f);
                let m = choose|m: int|
                    0 <= m < present@.len() && (#[trigger] present@[m]).finding@ == unsorted[k]@;
                assert(entry_views(present@)[m] == f);
                assert(entry_views(present@).contains(f));
            }
            if collapsed(here).contains(f) && !occurs(there, identity(f)) {
                assert(entry_views(present@).contains(f));
                let m = choose|m: int|
                    0 <= m < entry_views(present@).len() && entry_views(present@)[m] == f;
                assert(present@[m].finding@ == f);
                let k = choose|k: int|
                    0 <= k < unsorted.len() && (#[trigger] unsorted[k])@ == present@[m].finding@;
                assert(plain[k] == f);
                assert(plain.contains(f));
            }
        }
    }
    out
}

impl Ranked for SeverityChange {
    open spec fn rank_le(&self, other: &Self) -> bool {
        !change_first(other@, self@)
    }

    proof fn rank_total(a: Self, b: Self) {
        lemma_identity_order(identity(a.finding@), identity(b.finding@), identity(b.finding@));
    }

    proof fn rank_transitive(a: Self, b: Self, c: Self) {
        lemma_identity_order(identity(a.finding@), identity(b.finding@), identity(c.finding@));
    }

    fn may_precede(&self, other: &Self) -> (r: bool) {
        let (a, b) = (self.is_regression(), other.is_regression());
        if a != b {
            a
        } else {
            !key_precedes(&identity_of(&other.finding), &identity_of(&self.finding))
        }
    }
}

/// The findings of both maps whose severity differs, regressions first.
fn changes_between(
    before: &Vec<Identified>,
    after: &Vec<Identified>,
    Ghost(earlier): Ghost<Seq<Finding>>,
    Ghost(later): Ghost<Seq<Finding>>,
) -> (r: Vec<SeverityChange>)
    requires
        is_identity_map(before@, earlier),
        is_identity_map(after@, later),
    ensures
        lists_changes(change_views(r@), earlier, later),
{
    let mut out: Vec<SeverityChange> = Vec::new();
    let ghost apart = |a: SeverityChange, b: SeverityChange|
        identity(a.finding@) != identity(b.finding@);
    let mut i: usize = 0;
    while i < after.len()
        invariant
            is_identity_map(before@, earlier),
            is_identity_map(after@, later),
            apart == (|a: SeverityChange, b: SeverityChange|
                identity(a.finding@) != identity(b.finding@)),
            i <= after@.len(),
            permutation::pairwise(out@, apart),
            forall|k: int| #![trigger out@[k]]
                0 <= k < out@.len() ==> is_change(out@[k]@, earlier, later) && exists|m: int|
                    0 <= m < i && (#[trigger] after@[m]).finding@ == out@[k].finding@,
            forall|c: SeverityChangeView, m: int|
                #![trigger is_change(c, earlier, later), after@[m]]
                0 <= m < i && after@[m].finding@ == c.finding && is_change(c, earlier, later)
                    ==> exists|k: int| 0 <= k < out@.len() && (#[trigger] out@[k])@ == c,
        decreases after@.len() - i,
    {
        let ghost done = out@;
        let ghost entry = after@[i as int];
        let found = position_of(before, &after[i].key);
        proof {
            assert(entry_views(after@)[i as int] == entry.finding@);
            assert(entry_views(after@).contains(entry.finding@));
        }
        if let Some(b) = found {
            let ghost partner = before@[b as int];
            proof {
                assert(entry_views(before@)[b as int] == partner.finding@);
                assert(entry_views(before@).contains(partner.finding@));
                assert forall|f: FindingView| #[trigger]
                    collapsed(earlier).contains(f) && identity(f) == entry.key@ implies f
                    == partner.finding@ by {
                    assert(entry_views(before@).contains(f));
                    let m = choose|m: int|
                        0 <= m < entry_views(before@).len() && entry_views(before@)[m] == f;
                    assert(before@[m].finding@ == f);
                    lemma_identity_order(
                        before@[m].key@,
                        before@[m].key@,
                        before@[b as int].key@,
                    );
                    if m < b {
                        assert(identity_lt(
                            identity(before@[m].finding@),
                            identity(before@[b as int].finding@),
                        ));
                    } else if m > b {
                        assert(identity_lt(
                            identity(before@[b as int].finding@),
                            identity(before@[m].finding@),
                        ));
                    }
                }
            }
            if before[b].finding.severity != after[i].finding.severity {
                out.push(
                    SeverityChange {
                        finding: after[i].finding.duplicate(),
                        before_severity: before[b].finding.severity,
                        after_severity: after[i].finding.severity,
                    },
                );
                proof {
                    let c = out@[done.len() as int];
                    assert(is_change(c@, earlier, later)) by {
                        assert(collapsed(earlier).contains(partner.finding@));
                    }
                    assert forall|k: int, j: int|
                        #![trigger out@[k], out@[j]]
                        0 <= k < out@.len() && 0 <= j < out@.len() && k != j implies apart(
                        out@[k],
                        out@[j],
                    ) by {
                        if k < done.len() && j < done.len() {
                            assert(out@[k] == done[k] && out@[j] == done[j]);
                        } else {
                            let other = if k < done.len() {
                                k
                            } else {
                                j
                            };
                            assert(out@[other] == done[other]);
                            let m = choose|m: int|
                                0 <= m < i && (#[trigger] after@[m]).finding@
                                    == done[other].finding@;
                            assert(identity_lt(
                                identity(after@[m].finding@),
                                identity(after@[i as int].finding@),
                            ));
                            lemma_identity_order(
                                identity(after@[m].finding@),
                                identity(after@[m].finding@),
                                identity(after@[i as int].finding@),
                            );
                        }
                    }
                    assert forall|k: int|
                        #![trigger out@[k]]
                        0 <= k < out@.len() implies is_change(out@[k]@, earlier, later) && exists|
                        m: int,
                    |
                        0 <= m < i + 1 && (#[trigger] after@[m]).finding@ == out@[k].finding@ by {
                        if k < done.len() {
                            assert(out@[k] == done[k]);
                            let m = choose|m: int|
                                0 <= m < i && (#[trigger] after@[m]).finding@ == done[k].finding@;
                            assert(after@[m].finding@ == out@[k].finding@);
                        } else {
                            assert(after@[i as int].finding@ == out@[k].finding@);
                        }
                    }
                }
            }
        }
        proof {
            lemma_occurs(before@, earlier, entry.key@);
            assert forall|c: SeverityChangeView, m: int|
                #![trigger is_change(c, earlier, later), after@[m]]
                0 <= m < i + 1 && after@[m].finding@ == c.finding && is_change(
                    c,
                    earlier,
                    later,
                ) implies exists|k: int| 0 <= k < out@.len() && (#[trigger] out@[k])@ == c by {
                if m < i {
                    let k = choose|k: int| 0 <= k < done.len() && (#[trigger] done[k])@ == c;
                    assert(out@[k] == done[k]);
                } else {
                    let f = choose|f: FindingView| #[trigger]
                        collapsed(earlier).contains(f) && identity(f) == identity(c.finding)
                            && f.severity == c.before_severity;
                    assert(entry_views(before@).contains(f));
                    let n = choose|n: int|
                        0 <= n < entry_views(before@).len() && entry_views(before@)[n] == f;
                    assert(before@[n].key@ == entry.key@);
                    assert(out@[done.len() as int]@ == c);
                }
            }
        }
        i += 1;
    }
    let ghost unsorted = out@;
    let r = order::sort_ranked(out);
    proof {
        order::lemma_ranked(unsorted);
        permutation::lemma_pairwise_permutation(unsorted, r@, apart);
        permutation::lemma_images_permutation(unsorted, r@, |c: SeverityChange| c@);
        let list = change_views(r@);
        let plain = change_views(unsorted);
        assert forall|k: int, j: int|
            #![trigger list[k], list[j]]
            0 <= k < j < list.len() implies change_first(list[k], list[j]) by {
            assert(list[k] == r@[k]@ && list[j] == r@[j]@);
            assert(r@[k].rank_le(&r@[j]));
            assert(apart(r@[k], r@[j]));
            lemma_identity_order(
                identity(list[k].finding),
                identity(list[j].finding),
                identity(list[j].finding),
            );
        }
        assert forall|c: SeverityChangeView| #[trigger]
            list.contains(c) <==> is_change(c, earlier, later) by {
            if list.contains(c) {
                assert(plain.contains(c));
                let k = choose|k: int| 0 <= k < plain.len() && plain[k] == c;
                assert(is_change(unsorted[k]@, earlier, later));
            }
            if is_change(c, earlier, later) {
                assert(entry_views(after@).contains(c.finding));
                let m = choose|m: int|
                    0 <= m < entry_views(after@).len() && entry_views(after@)[m] == c.finding;
                assert(after@[m].finding@ == c.finding);
                let k = choose|k: int| 0 <= k < unsorted.len() && (#[trigger] unsorted[k])@ == c;
                assert(plain[k] == c);
                assert(plain.contains(c));
            }
        }
    }
    r
}

impl Ranked for EndpointDelta {
    open spec fn rank_le(&self, other: &Self) -> bool {
        !delta_first(other@, self@)
    }

    proof fn rank_total(a: Self, b: Self) {
        let at = (b.service@, b.endpoint@);
        lemma_place_order((a.service@, a.endpoint@), at, at);
    }

    proof fn rank_transitive(a: Self, b: Self, c: Self) {
        lemma_place_order(
            (a.service@, a.endpoint@),
            (b.service@, b.endpoint@),
            (c.service@, c.endpoint@),
        );
    }

    fn may_precede(&self, other: &Self) -> (r: bool) {
        if self.delta != other.delta {
            return self.delta > other.delta;
        }
        proof {
            text::lemma_text_lt_triple(self.service@, other.service@, other.service@);
            text::lemma_text_lt_triple(self.endpoint@, other.endpoint@, other.endpoint@);
        }
        if self.service != other.service {
            return text::precedes(self.service.as_str(), other.service.as_str());
        }
        !text::precedes(other.endpoint.as_str(), self.endpoint.as_str())
    }
}

fn same_place(
    service: &String,
    endpoint: &String,
    other_service: &String,
    other_endpoint: &String,
) -> (r: bool)
    ensures
        r == ((service@, endpoint@) == (other_service@, other_endpoint@)),
{
    *service == *other_service && *endpoint == *other_endpoint
}

/// How many operations the last entry of a place reports.
fn count_at(entries: &Vec<PerEndpointIoOps>, service: &String, endpoint: &String) -> (r: usize)
    ensures
        r == ops_at(entries@, (service@, endpoint@)),
{
    let mut i: usize = entries.len();
    assert(entries@.take(i as int) =~= entries@);
    while i > 0
        invariant
            i <= entries@.len(),
            ops_at(entries@, (service@, endpoint@)) == ops_at(
                entries@.take(i as int),
                (service@, endpoint@),
            ),
        decreases i,
    {
        let e = &entries[i - 1];
        assert(entries@.take(i as int).drop_last() =~= entries@.take(i - 1));
        if same_place(&e.service, &e.endpoint, service, endpoint) {
            return e.io_ops;
        }
        i -= 1;
    }
    0
}

/// How much a count grew, kept within the range of `i64`.
fn grown(before: usize, after: usize) -> (r: i64)
    ensures
        r == growth(before, after),
{
    let delta: i128 = after as i128 - before as i128;
    if delta > 0x7fff_ffff_ffff_ffff {
        i64::MAX
    } else if delta < -0x8000_0000_0000_0000 {
        i64::MIN
    } else {
        delta as i64
    }
}

/// The place of a delta.
pub open spec fn delta_place(d: EndpointDelta) -> (Seq<char>, Seq<char>) {
    (d.service@, d.endpoint@)
}

/// Whether the deltas found so far are right and of different places.
spec fn sound_deltas(
    found: Seq<EndpointDelta>,
    before: Seq<PerEndpointIoOps>,
    after: Seq<PerEndpointIoOps>,
) -> bool {
    &&& permutation::pairwise(
        found,
        |a: EndpointDelta, b: EndpointDelta| delta_place(a) != delta_place(b),
    )
    &&& forall|k: int| 0 <= k < found.len() ==> is_delta((#[trigger] found[k])@, before, after)
}

/// Whether a delta was found for a place.
spec fn found_at(found: Seq<EndpointDelta>, at: (Seq<char>, Seq<char>)) -> bool {
    exists|k: int| 0 <= k < found.len() && delta_place(#[trigger] found[k]) == at
}

fn note_delta(
    out: &mut Vec<EndpointDelta>,
    entry: &PerEndpointIoOps,
    before: &Vec<PerEndpointIoOps>,
    after: &Vec<PerEndpointIoOps>,
)
    requires
        sound_deltas(old(out)@, before@, after@),
        reported(before@, place(*entry)) || reported(after@, place(*entry)),
    ensures
        sound_deltas(final(out)@, before@, after@),
        forall|at: (Seq<char>, Seq<char>)| #[trigger]
            found_at(old(out)@, at) ==> found_at(final(out)@, at),
        ops_at(before@, place(*entry)) != ops_at(after@, place(*entry)) ==> found_at(
            final(out)@,
            place(*entry),
        ),
{
    let ghost earlier = out@;
    let mut i: usize = 0;
    while i < out.len()
        invariant
            out@ == earlier,
            earlier == old(out)@,
            sound_deltas(earlier, before@, after@),
            i <= out@.len(),
            forall|k: int| 0 <= k < i ==> delta_place(#[trigger] out@[k]) != place(*entry),
        decreases out@.len() - i,
    {
        if same_place(&out[i].service, &out[i].endpoint, &entry.service, &entry.endpoint) {
            assert(delta_place(out@[i as int]) == place(*entry));
            return;
        }
        i += 1;
    }
    let before_io = count_at(before, &entry.service, &entry.endpoint);
    let after_io = count_at(after, &entry.service, &entry.endpoint);
    if before_io != after_io {
        out.push(
            EndpointDelta {
                service: entry.service.clone(),
                endpoint: entry.endpoint.clone(),
                before_io_ops: before_io,
                after_io_ops: after_io,
                delta: grown(before_io, after_io),
            },
        );
        proof {
            let n = earlier.len() as int;
            assert(delta_place(out@[n]) == place(*entry));
            assert forall|k: int, j: int|
                #![trigger out@[k], out@[j]]
                0 <= k < out@.len() && 0 <= j < out@.len() && k != j implies delta_place(out@[k])
                != delta_place(out@[j]) by {
                if k < n {
                    assert(out@[k] == earlier[k]);
                }
                if j < n {
                    assert(out@[j] == earlier[j]);
                }
            }
            assert forall|k: int| 0 <= k < out@.len() implies is_delta(
                (#[trigger] out@[k])@,
                before@,
                after@,
            ) by {
                if k < n {
                    assert(out@[k] == earlier[k]);
                }
            }
            assert forall|at: (Seq<char>, Seq<char>)| #[trigger]
                found_at(earlier, at) implies found_at(out@, at) by {
                let k = choose|k: int|
                    0 <= k < earlier.len() && delta_place(#[trigger] earlier[k]) == at;
                assert(delta_place(out@[k]) == at);
            }
        }
    }
}

/// One delta for each service and endpoint whose I/O count differs between the runs; a place
/// without an entry counts as zero. Regressions come first.
fn diff_per_endpoint_io_ops(
    before: &Vec<PerEndpointIoOps>,
    after: &Vec<PerEndpointIoOps>,
) -> (r: Vec<EndpointDelta>)
    ensures
        lists_deltas(delta_views(r@), before@, after@),
{
    let mut out: Vec<EndpointDelta> = Vec::new();
    let mut i: usize = 0;
    while i < before.len()
        invariant
            i <= before@.len(),
            sound_deltas(out@, before@, after@),
            forall|k: int|
                0 <= k < i && ops_at(before@, place(#[trigger] before@[k])) != ops_at(
                    after@,
                    place(before@[k]),
                ) ==> found_at(out@, place(before@[k])),
        decreases before@.len() - i,
    {
        note_delta(&mut out, &before[i], before, after);
        i += 1;
    }
    let mut j: usize = 0;
    while j < after.len()
        invariant
            j <= after@.len(),
            sound_deltas(out@, before@, after@),
            forall|k: int|
                0 <= k < before@.len() && ops_at(before@, place(#[trigger] before@[k])) != ops_at(
                    after@,
                    place(before@[k]),
                ) ==> found_at(out@, place(before@[k])),
            forall|k: int|
                0 <= k < j && ops_at(before@, place(#[trigger] after@[k])) != ops_at(
                    after@,
                    place(after@[k]),
                ) ==> found_at(out@, place(after@[k])),
        decreases after@.len() - j,
    {
        note_delta(&mut out, &after[j], before, after);
        j += 1;
    }
    let ghost unsorted = out@;
    let r = order::sort_ranked(out);
    proof {
        let apart = |a: EndpointDelta, b: EndpointDelta| delta_place(a) != delta_place(b);
        order::lemma_ranked(unsorted);
        permutation::lemma_pairwise_permutation(unsorted, r@, apart);
        permutation::lemma_images_permutation(unsorted, r@, |d: EndpointDelta| d@);
        let list = delta_views(r@);
        let plain = delta_views(unsorted);
        assert forall|k: int, j: int|
            #![trigger list[k], list[j]]
            0 <= k < j < list.len() implies delta_first(list[k], list[j]) by {
            assert(list[k] == r@[k]@ && list[j] == r@[j]@);
            assert(r@[k].rank_le(&r@[j]));
            assert(apart(r@[k], r@[j]));
            lemma_place_order(delta_place(r@[k]), delta_place(r@[j]), delta_place(r@[j]));
        }
        assert forall|d: EndpointDeltaView| #[trigger]
            list.contains(d) <==> is_delta(d, before@, after@) by {
            if list.contains(d) {
                assert(plain.contains(d));
                let k = choose|k: int| 0 <= k < plain.len() && plain[k] == d;
                assert(is_delta(unsorted[k]@, before@, after@));
            }
            if is_delta(d, before@, after@) {
                let at = (d.service, d.endpoint);
                if reported(before@, at) {
                    let k = choose|k: int|
                        0 <= k < before@.len() && place(#[trigger] before@[k]) == at;
                    assert(found_at(unsorted, place(before@[k])));
                } else {
                    let k = choose|k: int|
                        0 <= k < after@.len() && place(#[trigger] after@[k]) == at;
                    assert(found_at(unsorted, place(after@[k])));
                }
                let k = choose|k: int|
                    0 <= k < unsorted.len() && delta_place(#[trigger] unsorted[k]) == at;
                assert(unsorted[k]@ == d);
                assert(plain[k] == d);
                assert(plain.contains(d));
            }
        }
    }
    r
}

/// Compare two analysis reports.
///
/// Both are expected to come from runs under the same configuration.
pub fn diff_runs(before: &Report, after: &Report) -> (r: DiffReport)
    ensures
        describes(r, *before, *after),
{
    let before_map = build_identity_map(&before.findings);
    let after_map = build_identity_map(&after.findings);
    let new_findings = only_in(
        &after_map,
        &before_map,
        Ghost(after.findings@),
        Ghost(before.findings@),
    );
    let resolved_findings = only_in(
        &before_map,
        &after_map,
        Ghost(before.findings@),
        Ghost(after.findings@),
    );
    let severity_changes = changes_between(
        &before_map,
        &after_map,
        Ghost(before.findings@),
        Ghost(after.findings@),
    );
    let endpoint_metric_deltas = diff_per_endpoint_io_ops(
        &before.per_endpoint_io_ops,
        &after.per_endpoint_io_ops,
    );
    DiffReport { new_findings, resolved_findings, severity_changes, endpoint_metric_deltas }
}

proof fn lemma_collapsed_occurs(findings: Seq<Finding>, f: FindingView)
    requires
        collapsed(findings).contains(f),
    ensures
        occurs(findings, identity(f)),
{
    let g = SameIdentity {  };
    let keys = grouping::classes(g, findings);
    let k = choose|k: int| 0 <= k < collapsed(findings).len() && collapsed(findings)[k] == f;
    assert(keys.contains(keys[k]));
    lemma_collapsed_identity(findings, keys[k]);
    grouping::lemma_class_listed(g, findings, keys[k]);
    let j = choose|j: int|
        0 <= j < findings.len() && g.included(#[trigger] findings[j]) && g.key(findings[j])
            == keys[k];
    assert(identity(findings[j]@) == identity(f));
}

proof fn lemma_collapsed_unique(findings: Seq<Finding>, a: FindingView, b: FindingView)
    requires
        collapsed(findings).contains(a),
        collapsed(findings).contains(b),
        identity(a) == identity(b),
    ensures
        a == b,
{
    let g = SameIdentity {  };
    let keys = grouping::classes(g, findings);
    let k = choose|k: int| 0 <= k < collapsed(findings).len() && collapsed(findings)[k] == a;
    let m = choose|m: int| 0 <= m < collapsed(findings).len() && collapsed(findings)[m] == b;
    assert(keys.contains(keys[k]) && keys.contains(keys[m]));
    lemma_collapsed_identity(findings, keys[k]);
    lemma_collapsed_identity(findings, keys[m]);
    assert(keys[k] == keys[m]);
    grouping::lemma_classes_distinct(g, findings);
}

/// A run compared with itself shows no difference.
pub proof fn law_identical_runs_produce_empty_diff(d: DiffReport, run: Report)
    requires
        describes(d, run, run),
    ensures
        d.new_findings@.len() == 0,
        d.resolved_findings@.len() == 0,
        d.severity_changes@.len() == 0,
        d.endpoint_metric_deltas@.len() == 0,
{
    let new = finding::finding_views(d.new_findings@);
    if new.len() > 0 {
        assert(new.contains(new[0]));
        lemma_collapsed_occurs(run.findings@, new[0]);
    }
    let resolved = finding::finding_views(d.resolved_findings@);
    if resolved.len() > 0 {
        assert(resolved.contains(resolved[0]));
        lemma_collapsed_occurs(run.findings@, resolved[0]);
    }
    let changes = change_views(d.severity_changes@);
    if changes.len() > 0 {
        let c = changes[0];
        assert(changes.contains(c));
        let b = choose|b: FindingView| #[trigger]
            collapsed(run.findings@).contains(b) && identity(b) == identity(c.finding)
                && b.severity == c.before_severity;
        lemma_collapsed_unique(run.findings@, b, c.finding);
    }
    let deltas = delta_views(d.endpoint_metric_deltas@);
    if deltas.len() > 0 {
        assert(deltas.contains(deltas[0]));
    }
}

proof fn lemma_listing_asymmetric(a: FindingView, b: FindingView)
    ensures
        listed_first(a, b) ==> !listed_first(b, a),
{
    lemma_identity_order(identity(a), identity(b), identity(b));
}

/// Comparing the runs the other way round swaps what is new and what is resolved.
pub proof fn law_swapped_runs_swap_new_and_resolved(
    there: DiffReport,
    back: DiffReport,
    before: Report,
    after: Report,
)
    requires
        describes(there, before, after),
        describes(back, after, before),
    ensures
        finding::finding_views(there.new_findings@) == finding::finding_views(
            back.resolved_findings@,
        ),
        finding::finding_views(there.resolved_findings@) == finding::finding_views(
            back.new_findings@,
        ),
{
    let first = |a: FindingView, b: FindingView| listed_first(a, b);
    assert forall|a: FindingView, b: FindingView| #[trigger] first(a, b) implies !first(b, a) by {
        lemma_listing_asymmetric(a, b);
    }
    permutation::lemma_order_fixes_sequence(
        finding::finding_views(there.new_findings@),
        finding::finding_views(back.resolved_findings@),
        first,
    );
    permutation::lemma_order_fixes_sequence(
        finding::finding_views(there.resolved_findings@),
        finding::finding_views(back.new_findings@),
        first,
    );
}

/// Comparing the runs the other way round turns every regression of a severity into an
/// improvement, and the reverse.
pub proof fn law_swapped_runs_swap_regressions(
    there: DiffReport,
    back: DiffReport,
    before: Report,
    after: Report,
    c: SeverityChangeView,
)
    requires
        describes(there, before, after),
        describes(back, after, before),
        change_views(there.severity_changes@).contains(c),
    ensures
        exists|r: SeverityChangeView| #[trigger]
            change_views(back.severity_changes@).contains(r) && identity(r.finding) == identity(
                c.finding,
            ) && r.before_severity == c.after_severity && r.after_severity == c.before_severity
                && r.regressed() == !c.regressed(),
{
    let b = choose|b: FindingView| #[trigger]
        collapsed(before.findings@).contains(b) && identity(b) == identity(c.finding)
            && b.severity == c.before_severity;
    let r = SeverityChangeView {
        finding: b,
        before_severity: c.after_severity,
        after_severity: c.before_severity,
    };
    assert(is_change(r, after.findings@, before.findings@)) by {
        assert(collapsed(after.findings@).contains(c.finding));
    }
    assert(change_views(back.severity_changes@).contains(r));
}

/// Comparing the runs the other way round lists every delta with its counts swapped: a regression
/// becomes an improvement and the reverse. The delta itself has its sign turned wherever it is
/// small enough not to be cut.
pub proof fn law_swapped_runs_turn_deltas(
    there: DiffReport,
    back: DiffReport,
    before: Report,
    after: Report,
    d: EndpointDeltaView,
)
    requires
        describes(there, before, after),
        describes(back, after, before),
        delta_views(there.endpoint_metric_deltas@).contains(d),
    ensures
        exists|r: EndpointDeltaView| #[trigger]
            delta_views(back.endpoint_metric_deltas@).contains(r) && r.service == d.service
                && r.endpoint == d.endpoint && r.before_io_ops == d.after_io_ops && r.after_io_ops
                == d.before_io_ops && (r.delta > 0 <==> d.delta < 0) && (-i64::MAX
                <= d.after_io_ops - d.before_io_ops <= i64::MAX ==> r.delta == -d.delta),
{
    let at = (d.service, d.endpoint);
    let r = delta_at(after.per_endpoint_io_ops@, before.per_endpoint_io_ops@, at);
    assert(is_delta(r, after.per_endpoint_io_ops@, before.per_endpoint_io_ops@));
    assert(delta_views(back.endpoint_metric_deltas@).contains(r));
}

/// Of findings that share an identity the worst severity is kept, and their occurrences are summed.
pub proof fn law_collapse_keeps_the_worst(group: Seq<Finding>, i: int)
    requires
        0 <= i < group.len(),
    ensures
        collapse(group).severity.position() <= group[i].severity.position(),
        exists|k: int|
            0 <= k < group.len() && collapse(group) == with_occurrences(
                (#[trigger] group[k])@,
                collapse(group).pattern.occurrences,
            ),
        total_occurrences(group) <= usize::MAX ==> collapse(group).pattern.occurrences
            == total_occurrences(group),
{
    lemma_worst(group);
    let k = choose|k: int| 0 <= k < group.len() && group[k] == worst(group);
    assert(collapse(group) == with_occurrences(group[k]@, collapse(group).pattern.occurrences));
}

/// A finding of the later run is new, or its identity occurred before; in the second case a change
/// of severity is reported if and only if the worst severities differ.
pub proof fn law_every_finding_is_accounted_for(
    d: DiffReport,
    before: Report,
    after: Report,
    f: FindingView,
)
    requires
        describes(d, before, after),
        collapsed(after.findings@).contains(f),
    ensures
        finding::finding_views(d.new_findings@).contains(f) <==> !occurs(
            before.findings@,
            identity(f),
        ),
        forall|b: FindingView| #[trigger]
            collapsed(before.findings@).contains(b) && identity(b) == identity(f) ==> (
            b.severity != f.severity <==> change_views(d.severity_changes@).contains(
                SeverityChangeView {
                    finding: f,
                    before_severity: b.severity,
                    after_severity: f.severity,
                },
            )),
{
    assert forall|b: FindingView| #[trigger]
        collapsed(before.findings@).contains(b) && identity(b) == identity(f) implies (b.severity
        != f.severity <==> change_views(d.severity_changes@).contains(
        SeverityChangeView { finding: f, before_severity: b.severity, after_severity: f.severity },
    )) by {
        let c = SeverityChangeView {
            finding: f,
            before_severity: b.severity,
            after_severity: f.severity,
        };
        assert(is_change(c, before.findings@, after.findings@) <==> b.severity != f.severity);
    }
}

/// Two findings are the same anti-pattern if and only if they agree in type, service, endpoint and
/// template, whatever else differs.
pub proof fn law_identity_goes_by_four_values(a: Finding, b: Finding)
    ensures
        identity(a@) == identity(b@) <==> a.finding_type == b.finding_type
            && a.service@ == b.service@
            && a.source_endpoint@ == b.source_endpoint@
            && a.pattern.template@ == b.pattern.template@,
        (SameIdentity {  }).key(a) == (SameIdentity {  }).key(b) <==> a.finding_type == b.finding_type
            && a.service@ == b.service@
            && a.source_endpoint@ == b.source_endpoint@
            && a.pattern.template@ == b.pattern.template@,
{
}

proof fn lemma_worst_is_first(group: Seq<Finding>) -> (w: int)
    requires
        group.len() > 0,
    ensures
        0 <= w < group.len(),
        group[w] == worst(group),
        forall|i: int|
            0 <= i < group.len() ==> group[w].severity.position() <= (
            #[trigger] group[i]).severity.position(),
        forall|i: int|
            0 <= i < w ==> group[w].severity.position() < (
            #[trigger] group[i]).severity.position(),
    decreases group.len(),
{
    lemma_worst(group);
    if group.len() == 1 {
        0
    } else {
        let rest = group.drop_last();
        let w = lemma_worst_is_first(rest);
        assert forall|i: int| 0 <= i < rest.len() implies rest[i] == #[trigger] group[i] by {}
        if group.last().severity.position() < worst(rest).severity.position() {
            assert forall|i: int| 0 <= i < group.len() - 1 implies group.last().severity.position()
                < (#[trigger] group[i]).severity.position() by {
                assert(rest[w].severity.position() <= rest[i].severity.position());
            }
            group.len() - 1
        } else {
            assert forall|i: int| 0 <= i < w implies group[w].severity.position() < (
            #[trigger] group[i]).severity.position() by {
                assert(rest[w].severity.position() < rest[i].severity.position());
            }
            w
        }
    }
}

proof fn lemma_total(group: Seq<Finding>)
    ensures
        total_occurrences(group) == group.fold_left(
            0nat,
            |n: nat, f: Finding| n + f.pattern.occurrences as nat,
        ),
    decreases group.len(),
{
    if group.len() > 0 {
        lemma_total(group.drop_last());
    }
}

/// What a collapsed finding is made of: the findings with its four values.
proof fn lemma_collapsed_of(findings: Seq<Finding>, e: Finding, v: FindingView)
    requires
        collapsed(findings).contains(v),
        v.finding_type == e.finding_type,
        v.service == e.service@,
        v.source_endpoint == e.source_endpoint@,
        v.pattern.template == e.pattern.template@,
    ensures
        ({
            let same = findings.filter(
                |f: Finding|
                    f.finding_type == e.finding_type && f.service@ == e.service@
                        && f.source_endpoint@ == e.source_endpoint@
                        && f.pattern.template@ == e.pattern.template@,
            );
            v == collapse(same) && same.len() > 0
        }),
{
    let g = SameIdentity {  };
    let keys = grouping::classes(g, findings);
    let m = choose|m: int| 0 <= m < collapsed(findings).len() && collapsed(findings)[m] == v;
    assert(keys.contains(keys[m]));
    lemma_collapsed_identity(findings, keys[m]);
    let same = |f: Finding|
        f.finding_type == e.finding_type && f.service@ == e.service@
            && f.source_endpoint@ == e.source_endpoint@
            && f.pattern.template@ == e.pattern.template@;
    assert(grouping::groups(g, findings)[m] == grouping::class_members(g, findings, keys[m]));
    assert(keys[m] == identity(v));
    assert forall|f: Finding| #[trigger] same(f) == grouping::in_class(g, keys[m])(f) by {}
    permutation::lemma_filter_same(findings, same, grouping::in_class(g, keys[m]));
}

proof fn lemma_present_collapsed(findings: Seq<Finding>, i: int) -> (v: FindingView)
    requires
        0 <= i < findings.len(),
    ensures
        collapsed(findings).contains(v),
        identity(v) == identity(findings[i]@),
{
    let g = SameIdentity {  };
    let k = identity(findings[i]@);
    let keys = grouping::classes(g, findings);
    assert(g.included(findings[i]) && g.key(findings[i]) == k);
    grouping::lemma_class_listed(g, findings, k);
    assert(keys.contains(k));
    let m = choose|m: int| 0 <= m < keys.len() && keys[m] == k;
    lemma_collapsed_identity(findings, k);
    assert(grouping::groups(g, findings)[m] == grouping::class_members(g, findings, k));
    let v = collapsed(findings)[m];
    assert(collapsed(findings).contains(v));
    v
}

proof fn lemma_listed_entry(
    list: Seq<Finding>,
    present: Seq<Finding>,
    absent: Seq<Finding>,
    j: int,
) -> (w: int)
    requires
        lists_only_in(finding::finding_views(list), present, absent),
        0 <= j < list.len(),
    ensures
        ({
            let e = list[j];
            let same = present.filter(
                |f: Finding|
                    f.finding_type == e.finding_type && f.service@ == e.service@
                        && f.source_endpoint@ == e.source_endpoint@
                        && f.pattern.template@ == e.pattern.template@,
            );
            let total = same.fold_left(
                0nat,
                |n: nat, f: Finding| n + f.pattern.occurrences as nat,
            );
            &&& forall|i: int|
                0 <= i < absent.len() ==> !((#[trigger] absent[i]).finding_type == e.finding_type
                    && absent[i].service@ == e.service@ && absent[i].source_endpoint@
                    == e.source_endpoint@ && absent[i].pattern.template@ == e.pattern.template@)
            &&& 0 <= w < same.len()
            &&& e@ == (FindingView {
                pattern: PatternView {
                    occurrences: e.pattern.occurrences as nat,
                    ..same[w]@.pattern
                },
                ..same[w]@
            })
            &&& forall|i: int|
                0 <= i < same.len() ==> same[w].severity.position() <= (
                #[trigger] same[i]).severity.position()
            &&& forall|i: int|
                0 <= i < w ==> same[w].severity.position() < (
                #[trigger] same[i]).severity.position()
            &&& total <= usize::MAX ==> e.pattern.occurrences == total
            &&& total > usize::MAX ==> e.pattern.occurrences == usize::MAX
        }),
{
    let views = finding::finding_views(list);
    let e = list[j];
    let same = present.filter(
        |f: Finding|
            f.finding_type == e.finding_type && f.service@ == e.service@
                && f.source_endpoint@ == e.source_endpoint@
                && f.pattern.template@ == e.pattern.template@,
    );
    assert(views[j] == e@);
    assert(views.contains(e@));
    lemma_collapsed_of(present, e, e@);
    lemma_total(same);
    assert forall|i: int| 0 <= i < absent.len() implies !((
    #[trigger] absent[i]).finding_type == e.finding_type && absent[i].service@ == e.service@
        && absent[i].source_endpoint@ == e.source_endpoint@ && absent[i].pattern.template@
        == e.pattern.template@) by {
        assert(identity(absent[i]@) != identity(e@));
    }
    lemma_worst_is_first(same)
}

proof fn lemma_unknown_is_listed(
    list: Seq<Finding>,
    present: Seq<Finding>,
    absent: Seq<Finding>,
    i: int,
) -> (j: int)
    requires
        lists_only_in(finding::finding_views(list), present, absent),
        0 <= i < present.len(),
        forall|k: int|
            0 <= k < absent.len() ==> !((#[trigger] absent[k]).finding_type == present[i].finding_type
                && absent[k].service@ == present[i].service@ && absent[k].source_endpoint@
                == present[i].source_endpoint@ && absent[k].pattern.template@
                == present[i].pattern.template@),
    ensures
        0 <= j < list.len(),
        list[j].finding_type == present[i].finding_type,
        list[j].service@ == present[i].service@,
        list[j].source_endpoint@ == present[i].source_endpoint@,
        list[j].pattern.template@ == present[i].pattern.template@,
{
    let views = finding::finding_views(list);
    let v = lemma_present_collapsed(present, i);
    assert(!occurs(absent, identity(v)));
    assert(views.contains(v));
    let j = choose|j: int| 0 <= j < views.len() && views[j] == v;
    assert(list[j]@ == v);
    j
}

proof fn lemma_listed_in_order(
    list: Seq<Finding>,
    present: Seq<Finding>,
    absent: Seq<Finding>,
    j: int,
    k: int,
)
    requires
        lists_only_in(finding::finding_views(list), present, absent),
        0 <= j < k < list.len(),
    ensures
        ({
            let (a, b) = (list[j], list[k]);
            ||| a.finding_type.position() < b.finding_type.position()
            ||| a.finding_type == b.finding_type && {
                ||| a.severity.position() < b.severity.position()
                ||| a.severity == b.severity && {
                    ||| text::text_lt(a.trace_id@, b.trace_id@)
                    ||| a.trace_id@ == b.trace_id@ && {
                        ||| text::text_lt(a.source_endpoint@, b.source_endpoint@)
                        ||| a.source_endpoint@ == b.source_endpoint@ && {
                            ||| text::text_lt(a.pattern.template@, b.pattern.template@)
                            ||| a.pattern.template@ == b.pattern.template@ && text::text_lt(
                                a.service@,
                                b.service@,
                            )
                        }
                    }
                }
            }
        }),
{
    let views = finding::finding_views(list);
    let first = |a: FindingView, b: FindingView| listed_first(a, b);
    let (a, b) = (list[j], list[k]);
    assert(views[j] == a@ && views[k] == b@);
    assert(first(views[j], views[k]));
    text::lemma_text_lt_triple(a.trace_id@, b.trace_id@, b.trace_id@);
    text::lemma_text_lt_triple(a.source_endpoint@, b.source_endpoint@, b.source_endpoint@);
    text::lemma_text_lt_triple(a.pattern.template@, b.pattern.template@, b.pattern.template@);
    text::lemma_text_lt_triple(a.service@, b.service@, b.service@);
}

/// A new finding stands for the findings of the later run with its type, service, endpoint and
/// template: it is the first of the worst of them, with the occurrences of all. No finding of the
/// earlier run agrees with it in these four.
pub proof fn law_new_findings_on_the_fields(
    d: DiffReport,
    before: Report,
    after: Report,
    j: int,
) -> (w: int)
    requires
        describes(d, before, after),
        0 <= j < d.new_findings@.len(),
    ensures
        ({
            let e = d.new_findings@[j];
            let same = after.findings@.filter(
                |f: Finding|
                    f.finding_type == e.finding_type && f.service@ == e.service@
                        && f.source_endpoint@ == e.source_endpoint@
                        && f.pattern.template@ == e.pattern.template@,
            );
            let total = same.fold_left(
                0nat,
                |n: nat, f: Finding| n + f.pattern.occurrences as nat,
            );
            &&& forall|i: int|
                0 <= i < before.findings@.len() ==> !((#[trigger] before.findings@[i]).finding_type == e.finding_type
                    && before.findings@[i].service@ == e.service@ && before.findings@[i].source_endpoint@
                    == e.source_endpoint@ && before.findings@[i].pattern.template@ == e.pattern.template@)
            &&& 0 <= w < same.len()
            &&& e@ == (FindingView {
                pattern: PatternView {
                    occurrences: e.pattern.occurrences as nat,
                    ..same[w]@.pattern
                },
                ..same[w]@
            })
            &&& forall|i: int|
                0 <= i < same.len() ==> same[w].severity.position() <= (
                #[trigger] same[i]).severity.position()
            &&& forall|i: int|
                0 <= i < w ==> same[w].severity.position() < (
                #[trigger] same[i]).severity.position()
            &&& total <= usize::MAX ==> e.pattern.occurrences == total
            &&& total > usize::MAX ==> e.pattern.occurrences == usize::MAX
        }),
{
    lemma_listed_entry(d.new_findings@, after.findings@, before.findings@, j)
}

/// A finding of the later run with which no finding of the earlier run agrees in type, service,
/// endpoint and template is among the new ones, with these four.
pub proof fn law_new_findings_are_complete(
    d: DiffReport,
    before: Report,
    after: Report,
    i: int,
) -> (j: int)
    requires
        describes(d, before, after),
        0 <= i < after.findings@.len(),
        forall|k: int|
            0 <= k < before.findings@.len() ==> !((#[trigger] before.findings@[k]).finding_type == after.findings@[i].finding_type
                && before.findings@[k].service@ == after.findings@[i].service@ && before.findings@[k].source_endpoint@
                == after.findings@[i].source_endpoint@ && before.findings@[k].pattern.template@
                == after.findings@[i].pattern.template@),
    ensures
        0 <= j < d.new_findings@.len(),
        d.new_findings@[j].finding_type == after.findings@[i].finding_type,
        d.new_findings@[j].service@ == after.findings@[i].service@,
        d.new_findings@[j].source_endpoint@ == after.findings@[i].source_endpoint@,
        d.new_findings@[j].pattern.template@ == after.findings@[i].pattern.template@,
{
    lemma_unknown_is_listed(d.new_findings@, after.findings@, before.findings@, i)
}

/// The new findings are listed by type, severity, trace, endpoint, template and service, and no
/// two agree in all of them.
pub proof fn law_new_findings_are_listed_in_order(
    d: DiffReport,
    before: Report,
    after: Report,
    j: int,
    k: int,
)
    requires
        describes(d, before, after),
        0 <= j < k < d.new_findings@.len(),
    ensures
        ({
            let (a, b) = (d.new_findings@[j], d.new_findings@[k]);
            ||| a.finding_type.position() < b.finding_type.position()
            ||| a.finding_type == b.finding_type && {
                ||| a.severity.position() < b.severity.position()
                ||| a.severity == b.severity && {
                    ||| text::text_lt(a.trace_id@, b.trace_id@)
                    ||| a.trace_id@ == b.trace_id@ && {
                        ||| text::text_lt(a.source_endpoint@, b.source_endpoint@)
                        ||| a.source_endpoint@ == b.source_endpoint@ && {
                            ||| text::text_lt(a.pattern.template@, b.pattern.template@)
                            ||| a.pattern.template@ == b.pattern.template@ && text::text_lt(
                                a.service@,
                                b.service@,
                            )
                        }
                    }
                }
            }
        }),
{
    lemma_listed_in_order(d.new_findings@, after.findings@, before.findings@, j, k);
}

/// A resolved finding stands for the findings of the earlier run with its type, service, endpoint
/// and template: it is the first of the worst of them, with the occurrences of all. No finding of the
/// later run agrees with it in these four.
pub proof fn law_resolved_findings_on_the_fields(
    d: DiffReport,
    before: Report,
    after: Report,
    j: int,
) -> (w: int)
    requires
        describes(d, before, after),
        0 <= j < d.resolved_findings@.len(),
    ensures
        ({
            let e = d.resolved_findings@[j];
            let same = before.findings@.filter(
                |f: Finding|
                    f.finding_type == e.finding_type && f.service@ == e.service@
                        && f.source_endpoint@ == e.source_endpoint@
                        && f.pattern.template@ == e.pattern.template@,
            );
            let total = same.fold_left(
                0nat,
                |n: nat, f: Finding| n + f.pattern.occurrences as nat,
            );
            &&& forall|i: int|
                0 <= i < after.findings@.len() ==> !((#[trigger] after.findings@[i]).finding_type == e.finding_type
                    && after.findings@[i].service@ == e.service@ && after.findings@[i].source_endpoint@
                    == e.source_endpoint@ && after.findings@[i].pattern.template@ == e.pattern.template@)
            &&& 0 <= w < same.len()
            &&& e@ == (FindingView {
                pattern: PatternView {
                    occurrences: e.pattern.occurrences as nat,
                    ..same[w]@.pattern
                },
                ..same[w]@
            })
            &&& forall|i: int|
                0 <= i < same.len() ==> same[w].severity.position() <= (
                #[trigger] same[i]).severity.position()
            &&& forall|i: int|
                0 <= i < w ==> same[w].severity.position() < (
                #[trigger] same[i]).severity.position()
            &&& total <= usize::MAX ==> e.pattern.occurrences == total
            &&& total > usize::MAX ==> e.pattern.occurrences == usize::MAX
        }),
{
    lemma_listed_entry(d.resolved_findings@, before.findings@, after.findings@, j)
}

/// A finding of the earlier run with which no finding of the later run agrees in type, service,
/// endpoint and template is among the resolved ones, with these four.
pub proof fn law_resolved_findings_are_complete(
    d: DiffReport,
    before: Report,
    after: Report,
    i: int,
) -> (j: int)
    requires
        describes(d, before, after),
        0 <= i < before.findings@.len(),
        forall|k: int|
            0 <= k < after.findings@.len() ==> !((#[trigger] after.findings@[k]).finding_type == before.findings@[i].finding_type
                && after.findings@[k].service@ == before.findings@[i].service@ && after.findings@[k].source_endpoint@
                == before.findings@[i].source_endpoint@ && after.findings@[k].pattern.template@
                == before.findings@[i].pattern.template@),
    ensures
        0 <= j < d.resolved_findings@.len(),
        d.resolved_findings@[j].finding_type == before.findings@[i].finding_type,
        d.resolved_findings@[j].service@ == before.findings@[i].service@,
        d.resolved_findings@[j].source_endpoint@ == before.findings@[i].source_endpoint@,
        d.resolved_findings@[j].pattern.template@ == before.findings@[i].pattern.template@,
{
    lemma_unknown_is_listed(d.resolved_findings@, before.findings@, after.findings@, i)
}

/// The resolved findings are listed by type, severity, trace, endpoint, template and service, and no
/// two agree in all of them.
pub proof fn law_resolved_findings_are_listed_in_order(
    d: DiffReport,
    before: Report,
    after: Report,
    j: int,
    k: int,
)
    requires
        describes(d, before, after),
        0 <= j < k < d.resolved_findings@.len(),
    ensures
        ({
            let (a, b) = (d.resolved_findings@[j], d.resolved_findings@[k]);
            ||| a.finding_type.position() < b.finding_type.position()
            ||| a.finding_type == b.finding_type && {
                ||| a.severity.position() < b.severity.position()
                ||| a.severity == b.severity && {
                    ||| text::text_lt(a.trace_id@, b.trace_id@)
                    ||| a.trace_id@ == b.trace_id@ && {
                        ||| text::text_lt(a.source_endpoint@, b.source_endpoint@)
                        ||| a.source_endpoint@ == b.source_endpoint@ && {
                            ||| text::text_lt(a.pattern.template@, b.pattern.template@)
                            ||| a.pattern.template@ == b.pattern.template@ && text::text_lt(
                                a.service@,
                                b.service@,
                            )
                        }
                    }
                }
            }
        }),
{
    lemma_listed_in_order(d.resolved_findings@, before.findings@, after.findings@, j, k);
}

/// A reported change of severity is about findings of both runs that agree in type, service,
/// endpoint and template, each the worst of its run; their severities are the ones reported, and
/// they differ.
pub proof fn law_severity_changes_on_the_fields(
    d: DiffReport,
    before: Report,
    after: Report,
    j: int,
) -> (r: (int, int))
    requires
        describes(d, before, after),
        0 <= j < d.severity_changes@.len(),
    ensures
        ({
            let c = d.severity_changes@[j];
            let e = c.finding;
            let was = before.findings@.filter(
                |f: Finding|
                    f.finding_type == e.finding_type && f.service@ == e.service@
                        && f.source_endpoint@ == e.source_endpoint@
                        && f.pattern.template@ == e.pattern.template@,
            );
            let now = after.findings@.filter(
                |f: Finding|
                    f.finding_type == e.finding_type && f.service@ == e.service@
                        && f.source_endpoint@ == e.source_endpoint@
                        && f.pattern.template@ == e.pattern.template@,
            );
            &&& 0 <= r.0 < was.len()
            &&& 0 <= r.1 < now.len()
            &&& forall|i: int|
                0 <= i < was.len() ==> was[r.0].severity.position() <= (
                #[trigger] was[i]).severity.position()
            &&& forall|i: int|
                0 <= i < now.len() ==> now[r.1].severity.position() <= (
                #[trigger] now[i]).severity.position()
            &&& c.before_severity == was[r.0].severity
            &&& c.after_severity == now[r.1].severity
            &&& c.before_severity != c.after_severity
            &&& e@ == (FindingView {
                pattern: PatternView {
                    occurrences: e.pattern.occurrences as nat,
                    ..now[r.1]@.pattern
                },
                ..now[r.1]@
            })
        }),
{
    let changes = change_views(d.severity_changes@);
    let c = d.severity_changes@[j];
    let e = c.finding;
    let same = |f: Finding|
        f.finding_type == e.finding_type && f.service@ == e.service@
            && f.source_endpoint@ == e.source_endpoint@
            && f.pattern.template@ == e.pattern.template@;
    assert(changes[j] == c@);
    assert(changes.contains(c@));
    assert(is_change(c@, before.findings@, after.findings@));
    let b = choose|b: FindingView| #[trigger]
        collapsed(before.findings@).contains(b) && identity(b) == identity(e@) && b.severity
            == c.before_severity;
    lemma_collapsed_of(before.findings@, e, b);
    lemma_collapsed_of(after.findings@, e, e@);
    let was = before.findings@.filter(same);
    let now = after.findings@.filter(same);
    let k = lemma_worst_is_first(was);
    let i = lemma_worst_is_first(now);
    (k, i)
}

/// A change of severity is reported for findings of both runs that agree in type, service, endpoint
/// and template if and only if the worst of them differ in severity.
pub proof fn law_changed_severities_are_reported(
    d: DiffReport,
    before: Report,
    after: Report,
    k: int,
    i: int,
)
    requires
        describes(d, before, after),
        0 <= k < before.findings@.len(),
        0 <= i < after.findings@.len(),
        before.findings@[k].finding_type == after.findings@[i].finding_type,
        before.findings@[k].service@ == after.findings@[i].service@,
        before.findings@[k].source_endpoint@ == after.findings@[i].source_endpoint@,
        before.findings@[k].pattern.template@ == after.findings@[i].pattern.template@,
        forall|m: int|
            0 <= m < before.findings@.len() && (#[trigger] before.findings@[m]).finding_type
                == before.findings@[k].finding_type && before.findings@[m].service@
                == before.findings@[k].service@ && before.findings@[m].source_endpoint@
                == before.findings@[k].source_endpoint@ && before.findings@[m].pattern.template@
                == before.findings@[k].pattern.template@
                ==> before.findings@[k].severity.position()
                <= before.findings@[m].severity.position(),
        forall|m: int|
            0 <= m < after.findings@.len() && (#[trigger] after.findings@[m]).finding_type
                == after.findings@[i].finding_type && after.findings@[m].service@
                == after.findings@[i].service@ && after.findings@[m].source_endpoint@
                == after.findings@[i].source_endpoint@ && after.findings@[m].pattern.template@
                == after.findings@[i].pattern.template@
                ==> after.findings@[i].severity.position()
                <= after.findings@[m].severity.position(),
    ensures
        before.findings@[k].severity != after.findings@[i].severity <==> exists|j: int|
            0 <= j < d.severity_changes@.len() && (
            #[trigger] d.severity_changes@[j]).finding.finding_type
                == after.findings@[i].finding_type && d.severity_changes@[j].finding.service@
                == after.findings@[i].service@ && d.severity_changes@[j].finding.source_endpoint@
                == after.findings@[i].source_endpoint@
                && d.severity_changes@[j].finding.pattern.template@
                == after.findings@[i].pattern.template@
                && d.severity_changes@[j].before_severity == before.findings@[k].severity
                && d.severity_changes@[j].after_severity == after.findings@[i].severity,
{
    let changes = change_views(d.severity_changes@);
    let x = before.findings@[k];
    let y = after.findings@[i];
    let u = lemma_present_collapsed(before.findings@, k);
    let v = lemma_present_collapsed(after.findings@, i);
    lemma_worst_of(before.findings@, k, u);
    lemma_worst_of(after.findings@, i, v);
    let c = SeverityChangeView {
        finding: v,
        before_severity: u.severity,
        after_severity: v.severity,
    };
    if x.severity != y.severity {
        assert(is_change(c, before.findings@, after.findings@));
        assert(changes.contains(c));
        let j = choose|j: int| 0 <= j < changes.len() && changes[j] == c;
        assert(d.severity_changes@[j]@ == c);
    }
    if exists|j: int|
        0 <= j < d.severity_changes@.len() && (
        #[trigger] d.severity_changes@[j]).finding.finding_type == y.finding_type
            && d.severity_changes@[j].finding.service@ == y.service@
            && d.severity_changes@[j].finding.source_endpoint@ == y.source_endpoint@
            && d.severity_changes@[j].finding.pattern.template@ == y.pattern.template@
            && d.severity_changes@[j].before_severity == x.severity
            && d.severity_changes@[j].after_severity == y.severity {
        let j = choose|j: int|
            0 <= j < d.severity_changes@.len() && (
            #[trigger] d.severity_changes@[j]).finding.finding_type == y.finding_type
                && d.severity_changes@[j].finding.service@ == y.service@
                && d.severity_changes@[j].finding.source_endpoint@ == y.source_endpoint@
                && d.severity_changes@[j].finding.pattern.template@ == y.pattern.template@
                && d.severity_changes@[j].before_severity == x.severity
                && d.severity_changes@[j].after_severity == y.severity;
        assert(changes[j] == d.severity_changes@[j]@);
        assert(changes.contains(changes[j]));
    }
}

proof fn lemma_worst_of(findings: Seq<Finding>, i: int, v: FindingView)
    requires
        0 <= i < findings.len(),
        collapsed(findings).contains(v),
        identity(v) == identity(findings[i]@),
        forall|m: int|
            0 <= m < findings.len() && (#[trigger] findings[m]).finding_type
                == findings[i].finding_type && findings[m].service@ == findings[i].service@
                && findings[m].source_endpoint@ == findings[i].source_endpoint@
                && findings[m].pattern.template@ == findings[i].pattern.template@
                ==> findings[i].severity.position() <= findings[m].severity.position(),
    ensures
        v.severity == findings[i].severity,
{
    let e = findings[i];
    let same = |f: Finding|
        f.finding_type == e.finding_type && f.service@ == e.service@
            && f.source_endpoint@ == e.source_endpoint@
            && f.pattern.template@ == e.pattern.template@;
    lemma_collapsed_of(findings, e, v);
    let group = findings.filter(same);
    let w = lemma_worst_is_first(group);
    assert(group.contains(group[w]));
    permutation::lemma_filter_contains(findings, same, group[w]);
    let m = choose|m: int| 0 <= m < findings.len() && findings[m] == group[w];
    assert(findings[i].severity.position() <= findings[m].severity.position());
    permutation::lemma_filter_contains(findings, same, e);
    assert(findings.contains(e));
    let x = choose|x: int| 0 <= x < group.len() && group[x] == e;
    assert(group[w].severity.position() <= group[x].severity.position());
}

/// Changes of severity are listed with those for the worse first, then by type, service, endpoint
/// and template, and no two agree in these four.
pub proof fn law_severity_changes_are_listed_in_order(
    d: DiffReport,
    before: Report,
    after: Report,
    j: int,
    k: int,
)
    requires
        describes(d, before, after),
        0 <= j < k < d.severity_changes@.len(),
    ensures
        ({
            let (a, b) = (d.severity_changes@[j], d.severity_changes@[k]);
            let (f, g) = (a.finding, b.finding);
            let worse_a = a.after_severity.position() < a.before_severity.position();
            let worse_b = b.after_severity.position() < b.before_severity.position();
            ||| worse_a && !worse_b
            ||| worse_a == worse_b && {
                ||| f.finding_type.position() < g.finding_type.position()
                ||| f.finding_type == g.finding_type && {
                    ||| text::text_lt(f.service@, g.service@)
                    ||| f.service@ == g.service@ && {
                        ||| text::text_lt(f.source_endpoint@, g.source_endpoint@)
                        ||| f.source_endpoint@ == g.source_endpoint@ && text::text_lt(
                            f.pattern.template@,
                            g.pattern.template@,
                        )
                    }
                }
            }
        }),
{
    let changes = change_views(d.severity_changes@);
    let first = |a: SeverityChangeView, b: SeverityChangeView| change_first(a, b);
    assert(changes[j] == d.severity_changes@[j]@ && changes[k] == d.severity_changes@[k]@);
    assert(first(changes[j], changes[k]));
}

proof fn lemma_ops_at(entries: Seq<PerEndpointIoOps>, service: Seq<char>, endpoint: Seq<char>)
    ensures
        ({
            let there = entries.filter(
                |e: PerEndpointIoOps| e.service@ == service && e.endpoint@ == endpoint,
            );
            &&& reported(entries, (service, endpoint)) <==> there.len() > 0
            &&& ops_at(entries, (service, endpoint)) == (if there.len() > 0 {
                there.last().io_ops
            } else {
                0
            })
        }),
    decreases entries.len(),
{
    reveal(Seq::filter);
    let test = |e: PerEndpointIoOps| e.service@ == service && e.endpoint@ == endpoint;
    if entries.len() > 0 {
        let rest = entries.drop_last();
        lemma_ops_at(rest, service, endpoint);
        assert(entries[entries.len() - 1] == entries.last());
        if test(entries.last()) {
            assert(place(entries[entries.len() - 1]) == (service, endpoint));
        } else {
            if reported(rest, (service, endpoint)) {
                let i = choose|i: int|
                    0 <= i < rest.len() && place(#[trigger] rest[i]) == (service, endpoint);
                assert(place(entries[i]) == (service, endpoint));
            }
            if reported(entries, (service, endpoint)) {
                let i = choose|i: int|
                    0 <= i < entries.len() && place(#[trigger] entries[i]) == (service, endpoint);
                assert(rest[i] == entries[i]);
            }
        }
    }
}

/// A place, given by its service and endpoint, has a delta if and only if the counts of the two
/// runs differ there, where the last entry of a run counts and a run without an entry counts none.
/// The delta is what the later run has more.
pub proof fn law_endpoint_deltas_on_the_entries(
    d: DiffReport,
    before: Report,
    after: Report,
    service: Seq<char>,
    endpoint: Seq<char>,
)
    requires
        describes(d, before, after),
    ensures
        ({
            let was = before.per_endpoint_io_ops@.filter(
                |e: PerEndpointIoOps| e.service@ == service && e.endpoint@ == endpoint,
            );
            let now = after.per_endpoint_io_ops@.filter(
                |e: PerEndpointIoOps| e.service@ == service && e.endpoint@ == endpoint,
            );
            let n = if was.len() > 0 {
                was.last().io_ops
            } else {
                0
            };
            let m = if now.len() > 0 {
                now.last().io_ops
            } else {
                0
            };
            &&& n != m <==> exists|j: int|
                0 <= j < d.endpoint_metric_deltas@.len() && (
                #[trigger] d.endpoint_metric_deltas@[j]).service@ == service
                    && d.endpoint_metric_deltas@[j].endpoint@ == endpoint
            &&& forall|j: int|
                0 <= j < d.endpoint_metric_deltas@.len() && (
                #[trigger] d.endpoint_metric_deltas@[j]).service@ == service
                    && d.endpoint_metric_deltas@[j].endpoint@ == endpoint ==> {
                    let e = d.endpoint_metric_deltas@[j];
                    &&& e.before_io_ops == n
                    &&& e.after_io_ops == m
                    &&& i64::MIN <= m - n <= i64::MAX ==> e.delta == m - n
                    &&& m - n > i64::MAX ==> e.delta == i64::MAX
                    &&& m - n < i64::MIN ==> e.delta == i64::MIN
                }
        }),
{
    let at = (service, endpoint);
    let deltas = delta_views(d.endpoint_metric_deltas@);
    lemma_ops_at(before.per_endpoint_io_ops@, service, endpoint);
    lemma_ops_at(after.per_endpoint_io_ops@, service, endpoint);
    let expected = delta_at(before.per_endpoint_io_ops@, after.per_endpoint_io_ops@, at);
    if expected.before_io_ops != expected.after_io_ops {
        assert(is_delta(expected, before.per_endpoint_io_ops@, after.per_endpoint_io_ops@));
        assert(deltas.contains(expected));
        let j = choose|j: int| 0 <= j < deltas.len() && deltas[j] == expected;
        assert(d.endpoint_metric_deltas@[j]@ == expected);
        assert(d.endpoint_metric_deltas@[j].service@ == service);
    }
    assert forall|j: int|
        0 <= j < d.endpoint_metric_deltas@.len() && (
        #[trigger] d.endpoint_metric_deltas@[j]).service@ == service
            && d.endpoint_metric_deltas@[j].endpoint@ == endpoint implies d.endpoint_metric_deltas@[j]@ == expected
        && expected.before_io_ops != expected.after_io_ops by {
        assert(deltas[j] == d.endpoint_metric_deltas@[j]@);
        assert(deltas.contains(deltas[j]));
    }
}

/// Deltas are listed with the largest first, then by service and endpoint, and no two are of the
/// same place.
pub proof fn law_endpoint_deltas_are_listed_in_order(
    d: DiffReport,
    before: Report,
    after: Report,
    j: int,
    k: int,
)
    requires
        describes(d, before, after),
        0 <= j < k < d.endpoint_metric_deltas@.len(),
    ensures
        ({
            let (a, b) = (d.endpoint_metric_deltas@[j], d.endpoint_metric_deltas@[k]);
            ||| a.delta > b.delta
            ||| a.delta == b.delta && {
                ||| text::text_lt(a.service@, b.service@)
                ||| a.service@ == b.service@ && text::text_lt(a.endpoint@, b.endpoint@)
            }
        }),
{
    let deltas = delta_views(d.endpoint_metric_deltas@);
    let first = |a: EndpointDeltaView, b: EndpointDeltaView| delta_first(a, b);
    assert(deltas[j] == d.endpoint_metric_deltas@[j]@);
    assert(deltas[k] == d.endpoint_metric_deltas@[k]@);
    assert(first(deltas[j], deltas[k]));
}

} // verus!

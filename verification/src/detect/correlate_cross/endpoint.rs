//! The sides of a correlation pair.

use crate::detect::{Finding, FindingType, FindingView};
use crate::event;
use vstd::prelude::*;

verus! {

/// One side of a cross-trace correlation pair.
#[derive(Debug, Clone, PartialEq, Eq)]
pub struct CorrelationEndpoint {
    /// Finding type for this correlation side.
    pub finding_type: FindingType,
    /// Service name that produced the finding.
    pub service: String,
    /// Normalized query or URL template associated with the finding.
    pub template: String,
    /// Attribute name that supplied the grouping value.
    pub grouping_key: Option<String>,
    /// Effective grouping value, so two deployments never share a pair.
    pub grouping_value: Option<String>,
}

/// The mathematical value of a [`CorrelationEndpoint`].
pub struct EndpointView {
    pub finding_type: FindingType,
    pub service: Seq<char>,
    pub template: Seq<char>,
    pub grouping_key: Option<Seq<char>>,
    pub grouping_value: Option<Seq<char>>,
}

impl View for CorrelationEndpoint {
    type V = EndpointView;

    open spec fn view(&self) -> EndpointView {
        EndpointView {
            finding_type: self.finding_type,
            service: self.service@,
            template: self.template@,
            grouping_key: event::opt_view(self.grouping_key),
            grouping_value: event::opt_view(self.grouping_value),
        }
    }
}

/// The value of each endpoint.
pub open spec fn endpoint_views(s: Seq<CorrelationEndpoint>) -> Seq<EndpointView> {
    s.map_values(|e: CorrelationEndpoint| e@)
}

/// The endpoint that a finding belongs to.
pub open spec fn endpoint_of(f: FindingView) -> EndpointView {
    EndpointView {
        finding_type: f.finding_type,
        service: f.service,
        template: f.pattern.template,
        grouping_key: match f.identity() {
            Some(g) => Some(g.0),
            None => None,
        },
        grouping_value: match f.identity() {
            Some(g) => Some(g.1),
            None => None,
        },
    }
}

/// Whether two endpoints may form a pair: different services in the same grouping.
pub open spec fn may_pair(a: EndpointView, b: EndpointView) -> bool {
    a.service != b.service && a.grouping_key == b.grouping_key && a.grouping_value
        == b.grouping_value
}

impl CorrelationEndpoint {
    /// The endpoint that a finding belongs to.
    pub(crate) fn of(finding: &Finding) -> (r: CorrelationEndpoint)
        ensures
            r@ == endpoint_of(finding@),
    {
        let (grouping_key, grouping_value) = if finding.grouping.len() > 0 {
            (
                Some(finding.grouping[0].key.clone()),
                Some(finding.grouping[0].value.clone()),
            )
        } else {
            (None, None)
        };
        CorrelationEndpoint {
            finding_type: finding.finding_type,
            service: finding.service.clone(),
            template: finding.pattern.template.clone(),
            grouping_key,
            grouping_value,
        }
    }

    /// Whether two endpoints are the same.
    pub(crate) fn same(&self, other: &CorrelationEndpoint) -> (r: bool)
        ensures
            r == (self@ == other@),
    {
        let r = self.finding_type == other.finding_type && self.service == other.service
            && self.template == other.template && event::same_opt(
            &self.grouping_key,
            &other.grouping_key,
        ) && event::same_opt(&self.grouping_value, &other.grouping_value);
        r
    }

    /// A copy of the endpoint.
    pub fn duplicate(&self) -> (r: CorrelationEndpoint)
        ensures
            r@ == self@,
    {
        CorrelationEndpoint {
            finding_type: self.finding_type,
            service: self.service.clone(),
            template: self.template.clone(),
            grouping_key: event::copy_opt(&self.grouping_key),
            grouping_value: event::copy_opt(&self.grouping_value),
        }
    }
}

/// Whether two endpoints may form a pair: different services in the same grouping. Pairing across
/// groupings would invent a causal link between two deployments.
pub fn pairable(a: &CorrelationEndpoint, b: &CorrelationEndpoint) -> (r: bool)
    ensures
        r == may_pair(a@, b@),
{
    a.service != b.service && event::same_opt(&a.grouping_key, &b.grouping_key)
        && event::same_opt(&a.grouping_value, &b.grouping_value)
}

/// Whether an endpoint stands in a list.
pub(crate) fn listed(list: &Vec<CorrelationEndpoint>, e: &CorrelationEndpoint) -> (r: bool)
    ensures
        r == endpoint_views(list@).contains(e@),
{
    let mut i: usize = 0;
    while i < list.len()
        invariant
            i <= list@.len(),
            forall|k: int| 0 <= k < i ==> (#[trigger] list@[k])@ != e@,
        decreases list@.len() - i,
    {
        if list[i].same(e) {
            assert(endpoint_views(list@)[i as int] == e@);
            return true;
        }
        i += 1;
    }
    proof {
        if endpoint_views(list@).contains(e@) {
            let k = choose|k: int|
                0 <= k < endpoint_views(list@).len() && endpoint_views(list@)[k] == e@;
            assert(list@[k]@ == e@);
        }
    }
    false
}

/// No endpoint pairs with itself, and who may pair does not depend on who leads.
pub proof fn law_pairing_is_between_services(a: EndpointView, b: EndpointView)
    ensures
        !may_pair(a, a),
        may_pair(a, b) <==> may_pair(b, a),
        may_pair(a, b) ==> a.service != b.service,
{
}

} // verus!

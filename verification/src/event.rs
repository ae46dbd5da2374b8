//! Spans and traces as the detectors read them.

use crate::text;
use vstd::prelude::*;

verus! {

/// What kind of operation a span records.
#[derive(Debug, Clone, Copy, PartialEq, Eq, PartialOrd, Ord, Hash, Structural)]
pub enum EventType {
    /// A database query.
    Sql,
    /// An outbound HTTP call.
    HttpOut,
}

/// Where in the application's code a span was opened.
#[derive(Debug, Clone, PartialEq, Eq)]
pub struct CodeLocation {
    pub function: Option<String>,
    pub filepath: Option<String>,
    pub lineno: Option<u32>,
    pub namespace: Option<String>,
}

/// The mathematical value of a [`CodeLocation`].
pub struct CodeLocationView {
    pub function: Option<Seq<char>>,
    pub filepath: Option<Seq<char>>,
    pub lineno: Option<u32>,
    pub namespace: Option<Seq<char>>,
}

/// The characters of an optional text.
pub open spec fn opt_view(s: Option<String>) -> Option<Seq<char>> {
    match s {
        Some(t) => Some(t@),
        None => None,
    }
}

/// The characters of each text.
pub open spec fn texts(s: Seq<String>) -> Seq<Seq<char>> {
    s.map_values(|t: String| t@)
}

impl View for CodeLocation {
    type V = CodeLocationView;

    open spec fn view(&self) -> CodeLocationView {
        CodeLocationView {
            function: opt_view(self.function),
            filepath: opt_view(self.filepath),
            lineno: self.lineno,
            namespace: opt_view(self.namespace),
        }
    }
}

/// The mathematical value of an optional location.
pub open spec fn location_view(loc: Option<CodeLocation>) -> Option<CodeLocationView> {
    match loc {
        Some(l) => Some(l@),
        None => None,
    }
}

/// An attribute by which deployments are told apart, such as a namespace or a tenant.
#[derive(Debug, Clone, PartialEq, Eq)]
pub struct GroupingAttribute {
    pub key: String,
    pub value: String,
}

impl View for GroupingAttribute {
    type V = (Seq<char>, Seq<char>);

    open spec fn view(&self) -> (Seq<char>, Seq<char>) {
        (self.key@, self.value@)
    }
}

/// The key and value of each attribute.
pub open spec fn grouping_views(s: Seq<GroupingAttribute>) -> Seq<(Seq<char>, Seq<char>)> {
    s.map_values(|g: GroupingAttribute| g@)
}

/// The attribute that takes effect: the first one.
pub open spec fn effective(s: Seq<(Seq<char>, Seq<char>)>) -> Option<(Seq<char>, Seq<char>)> {
    if s.len() > 0 {
        Some(s[0])
    } else {
        None
    }
}

/// The inbound request that led to a span.
#[derive(Debug, Clone, PartialEq, Eq)]
pub struct EventSource {
    /// The route template of the request.
    pub endpoint: String,
    /// The handler method.
    pub method: String,
}

/// One span of a trace.
#[derive(Debug, Clone, PartialEq, Eq)]
pub struct SpanEvent {
    pub timestamp: String,
    pub span_id: String,
    pub parent_span_id: Option<String>,
    pub service: String,
    pub event_type: EventType,
    pub operation: String,
    pub target: String,
    pub duration_us: u64,
    pub source: EventSource,
    pub code_function: Option<String>,
    pub code_filepath: Option<String>,
    pub code_lineno: Option<u32>,
    pub code_namespace: Option<String>,
    pub instrumentation_scopes: Vec<String>,
    pub grouping: Vec<GroupingAttribute>,
}

impl SpanEvent {
    /// The attribute that takes effect for this span.
    pub open spec fn identity(self) -> Option<(Seq<char>, Seq<char>)> {
        effective(grouping_views(self.grouping@))
    }

    /// Where the span was opened: known when at least one of its parts is.
    pub open spec fn location(self) -> Option<CodeLocationView> {
        if self.code_function is None && self.code_filepath is None && self.code_lineno is None
            && self.code_namespace is None {
            None
        } else {
            Some(
                CodeLocationView {
                    function: opt_view(self.code_function),
                    filepath: opt_view(self.code_filepath),
                    lineno: self.code_lineno,
                    namespace: opt_view(self.code_namespace),
                },
            )
        }
    }

    /// Where the span was opened; `None` when the agent reported no part of it.
    pub fn code_location(&self) -> (r: Option<CodeLocation>)
        ensures
            location_view(r) == self.location(),
    {
        if self.code_function.is_none() && self.code_filepath.is_none()
            && self.code_lineno.is_none() && self.code_namespace.is_none() {
            None
        } else {
            Some(
                CodeLocation {
                    function: copy_opt(&self.code_function),
                    filepath: copy_opt(&self.code_filepath),
                    lineno: self.code_lineno,
                    namespace: copy_opt(&self.code_namespace),
                },
            )
        }
    }

    /// Whether two spans carry the same effective grouping attribute.
    pub fn same_grouping(&self, other: &SpanEvent) -> (r: bool)
        ensures
            r == (self.identity() == other.identity()),
    {
        same_effective(&self.grouping, &other.grouping)
    }
}

/// A copy of an optional text.
pub fn copy_opt(s: &Option<String>) -> (r: Option<String>)
    ensures
        opt_view(r) == opt_view(*s),
{
    match s {
        Some(t) => Some(t.clone()),
        None => None,
    }
}

/// Whether two optional texts are the same.
pub fn same_opt(a: &Option<String>, b: &Option<String>) -> (r: bool)
    ensures
        r == (opt_view(*a) == opt_view(*b)),
{
    match (a, b) {
        (Some(s), Some(t)) => *s == *t,
        (None, None) => true,
        _ => false,
    }
}

/// Whether two attribute lists have the same effective attribute.
pub fn same_effective(a: &Vec<GroupingAttribute>, b: &Vec<GroupingAttribute>) -> (r: bool)
    ensures
        r == (effective(grouping_views(a@)) == effective(grouping_views(b@))),
{
    if a.len() == 0 || b.len() == 0 {
        a.len() == b.len() || (a.len() == 0 && b.len() == 0)
    } else {
        text::same_text(a[0].key.as_str(), b[0].key.as_str()) && text::same_text(
            a[0].value.as_str(),
            b[0].value.as_str(),
        )
    }
}

/// A copy of an attribute list.
pub fn copy_grouping(a: &Vec<GroupingAttribute>) -> (r: Vec<GroupingAttribute>)
    ensures
        grouping_views(r@) == grouping_views(a@),
{
    let mut out: Vec<GroupingAttribute> = Vec::new();
    let mut i: usize = 0;
    while i < a.len()
        invariant
            i <= a@.len(),
            out@.len() == i,
            forall|k: int| 0 <= k < i ==> (#[trigger] out@[k])@ == a@[k]@,
        decreases a@.len() - i,
    {
        out.push(GroupingAttribute { key: a[i].key.clone(), value: a[i].value.clone() });
        i += 1;
    }
    assert(grouping_views(out@) =~= grouping_views(a@));
    out
}

/// A span together with its normalized operation.
#[derive(Debug, Clone, PartialEq, Eq)]
pub struct NormalizedEvent {
    pub event: SpanEvent,
    /// The operation with its literals replaced by placeholders.
    pub template: String,
    /// The literals that were replaced, in order.
    pub params: Vec<String>,
    /// Whether the operation only sets up a database session, as one issued on every connection
    /// checkout does.
    pub session_command: bool,
}

/// The spans of one distributed request.
#[derive(Debug, Clone, PartialEq, Eq)]
pub struct Trace {
    pub trace_id: String,
    pub spans: Vec<NormalizedEvent>,
}

/// A value of a span tells its fields: where it was opened is known as soon as one part is, and the
/// first attribute takes effect.
pub proof fn law_span_tells_its_context(s: SpanEvent)
    ensures
        s.location() is None <==> s.code_function is None && s.code_filepath is None
            && s.code_lineno is None && s.code_namespace is None,
        s.location() is Some ==> {
            let l = s.location()->0;
            &&& l.function == (if s.code_function is Some {
                Some(s.code_function->0@)
            } else {
                None
            })
            &&& l.filepath == (if s.code_filepath is Some {
                Some(s.code_filepath->0@)
            } else {
                None
            })
            &&& l.lineno == s.code_lineno
            &&& l.namespace == (if s.code_namespace is Some {
                Some(s.code_namespace->0@)
            } else {
                None
            })
        },
        s.grouping@.len() == 0 ==> s.identity() is None,
        s.grouping@.len() > 0 ==> s.identity() == Some(
            (s.grouping@[0].key@, s.grouping@[0].value@),
        ),
{
}

} // verus!

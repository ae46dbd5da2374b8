//! Relations between the spans of a trace, found once and shared by several detectors.

use crate::detect::grouping;
use crate::detect::grouping::Classifier;
use crate::event;
use crate::event::{NormalizedEvent, Trace};
use crate::text;
use vstd::prelude::*;

verus! {

/// The positions of a trace's spans by parent; spans without a parent take no part.
pub struct SiblingPositions<'a> {
    pub spans: &'a Vec<NormalizedEvent>,
}

impl<'a> Classifier<usize> for SiblingPositions<'a> {
    type Key = Option<Seq<char>>;

    open spec fn judges(&self, i: usize) -> bool {
        i < self.spans@.len()
    }

    open spec fn included(&self, i: usize) -> bool {
        self.spans@[i as int].event.parent_span_id is Some
    }

    open spec fn key(&self, i: usize) -> Option<Seq<char>> {
        event::opt_view(self.spans@[i as int].event.parent_span_id)
    }

    fn includes(&self, i: &usize) -> (r: bool) {
        self.spans[*i].event.parent_span_id.is_some()
    }

    fn same_key(&self, a: &usize, b: &usize) -> (r: bool) {
        match (&self.spans[*a].event.parent_span_id, &self.spans[*b].event.parent_span_id) {
            (Some(p), Some(q)) => *p == *q,
            (None, None) => true,
            _ => false,
        }
    }
}

/// The first `n` positions.
pub open spec fn first_positions(n: nat) -> Seq<usize> {
    Seq::new(n, |i: int| i as usize)
}

/// The positions of the children of each parent, in order of first occurrence.
pub open spec fn sibling_groups(spans: &Vec<NormalizedEvent>) -> Seq<Seq<usize>> {
    grouping::groups(SiblingPositions { spans }, first_positions(spans@.len()))
}

/// The parent that a group of siblings shares.
pub open spec fn shared_parent(spans: Seq<NormalizedEvent>, children: Seq<usize>) -> Seq<char> {
    event::opt_view(spans[children[0] as int].event.parent_span_id)->0
}

/// The last span with an identifier, if there is any.
pub open spec fn span_with_id(spans: Seq<NormalizedEvent>, id: Seq<char>) -> Option<NormalizedEvent>
    decreases spans.len(),
{
    if spans.len() == 0 {
        None
    } else if spans.last().event.span_id@ == id {
        Some(spans.last())
    } else {
        span_with_id(spans.drop_last(), id)
    }
}

/// The span that stands for the context of a group of siblings: their parent, or, when the trace
/// lacks it, the given child.
pub open spec fn context_span(
    spans: Seq<NormalizedEvent>,
    parent_id: Seq<char>,
    child: NormalizedEvent,
) -> NormalizedEvent {
    match span_with_id(spans, parent_id) {
        Some(s) => s,
        None => child,
    }
}

/// The children of one parent, by position.
pub struct Siblings<'a> {
    pub parent_id: &'a str,
    pub children: Vec<usize>,
}

/// Relations between the spans of one trace.
pub struct TraceIndices<'a> {
    /// The children of each parent, in order of first occurrence.
    pub children_by_parent: Vec<Siblings<'a>>,
    /// The identifier of the span at each position.
    pub span_index: Vec<&'a str>,
}

impl<'a> TraceIndices<'a> {
    /// Whether the relations are those of the trace.
    pub open spec fn describes(&self, trace: Trace) -> bool {
        &&& self.span_index@.len() == trace.spans@.len()
        &&& forall|i: int|
            0 <= i < trace.spans@.len() ==> (#[trigger] self.span_index@[i])@
                == trace.spans@[i].event.span_id@
        &&& self.children_by_parent@.len() == sibling_groups(&trace.spans).len()
        &&& forall|k: int|
            0 <= k < self.children_by_parent@.len() ==> {
                let s = #[trigger] self.children_by_parent@[k];
                &&& s.children@ == sibling_groups(&trace.spans)[k]
                &&& s.children@.len() > 0
                &&& grouping::ascending_positions(s.children@, trace.spans@.len())
                &&& s.parent_id@ == shared_parent(trace.spans@, s.children@)
            }
    }

    /// Find the relations of a trace.
    pub fn build(trace: &'a Trace) -> (r: Self)
        ensures
            r.describes(*trace),
    {
        let n = trace.spans.len();
        let mut positions: Vec<usize> = Vec::new();
        let mut span_index: Vec<&'a str> = Vec::new();
        let mut i: usize = 0;
        while i < n
            invariant
                i <= n,
                n == trace.spans@.len(),
                positions@ =~= first_positions(i as nat),
                span_index@.len() == i,
                forall|k: int|
                    0 <= k < i ==> (#[trigger] span_index@[k])@ == trace.spans@[k].event.span_id@,
            decreases n - i,
        {
            positions.push(i);
            span_index.push(trace.spans[i].event.span_id.as_str());
            i += 1;
        }
        let classifier = SiblingPositions { spans: &trace.spans };
        let groups = grouping::group_items(&classifier, &positions);
        let mut children_by_parent: Vec<Siblings<'a>> = Vec::new();
        let ghost expected = sibling_groups(&trace.spans);
        let mut k: usize = 0;
        while k < groups.len()
            invariant
                k <= groups@.len(),
                n == trace.spans@.len(),
                expected == sibling_groups(&trace.spans),
                groups@.len() == expected.len(),
                positions@ == first_positions(n as nat),
                forall|m: int|
                    0 <= m < groups@.len() ==> grouping::at_positions(
                        positions@,
                        (#[trigger] groups@[m])@,
                    ) == expected[m] && grouping::ascending_positions(
                        groups@[m]@,
                        positions@.len(),
                    ) && groups@[m]@.len() > 0,
                children_by_parent@.len() == k,
                forall|m: int|
                    0 <= m < k ==> {
                        let s = #[trigger] children_by_parent@[m];
                        &&& s.children@ == expected[m]
                        &&& s.children@.len() > 0
                        &&& grouping::ascending_positions(s.children@, trace.spans@.len())
                        &&& s.parent_id@ == shared_parent(trace.spans@, s.children@)
                    },
            decreases groups@.len() - k,
        {
            let children = groups[k].clone();
            proof {
                assert(grouping::at_positions(positions@, children@) =~= children@);
                assert(children@ == expected[k as int]);
                let keys = grouping::classes(
                    SiblingPositions { spans: &trace.spans },
                    first_positions(n as nat),
                );
                grouping::lemma_class_members(
                    SiblingPositions { spans: &trace.spans },
                    first_positions(n as nat),
                    keys[k as int],
                );
                assert(expected[k as int][0] == children@[0]);
            }
            let parent_id: &'a str = match &trace.spans[children[0]].event.parent_span_id {
                Some(p) => p.as_str(),
                None => {
                    assert(false);
                    ""
                },
            };
            children_by_parent.push(Siblings { parent_id, children });
            k += 1;
        }
        TraceIndices { children_by_parent, span_index }
    }

    /// The position of the last span with an identifier.
    pub fn position_of(&self, id: &str) -> (r: Option<usize>)
        ensures
            match r {
                Some(i) => i < self.span_index@.len() && self.span_index@[i as int]@ == id@
                    && forall|k: int|
                    i < k < self.span_index@.len() ==> (#[trigger] self.span_index@[k])@ != id@,
                None => forall|k: int|
                    0 <= k < self.span_index@.len() ==> (#[trigger] self.span_index@[k])@ != id@,
            },
    {
        let mut i: usize = self.span_index.len();
        while i > 0
            invariant
                i <= self.span_index@.len(),
                forall|k: int|
                    i <= k < self.span_index@.len() ==> (#[trigger] self.span_index@[k])@ != id@,
            decreases i,
        {
            i -= 1;
            if text::same_text(self.span_index[i], id) {
                return Some(i);
            }
        }
        None
    }

    /// A span with an identifier is known by its position, and only then.
    pub proof fn lemma_known(&self, trace: Trace, id: Seq<char>)
        requires
            self.describes(trace),
        ensures
            span_with_id(trace.spans@, id) is Some <==> exists|k: int|
                0 <= k < self.span_index@.len() && (#[trigger] self.span_index@[k])@ == id,
    {
        lemma_span_known(trace.spans@, id);
        if exists|k: int|
            0 <= k < trace.spans@.len() && (#[trigger] trace.spans@[k]).event.span_id@ == id {
            let k = choose|k: int|
                0 <= k < trace.spans@.len() && (#[trigger] trace.spans@[k]).event.span_id@ == id;
            assert(self.span_index@[k]@ == id);
        }
    }

    /// The span that stands for the context of a group of siblings.
    pub fn context<'b>(
        &self,
        trace: &'b Trace,
        parent_id: &str,
        child: usize,
    ) -> (r: &'b NormalizedEvent)
        requires
            self.describes(*trace),
            child < trace.spans@.len(),
        ensures
            *r == context_span(trace.spans@, parent_id@, trace.spans@[child as int]),
    {
        match self.position_of(parent_id) {
            Some(i) => {
                proof {
                    assert forall|k: int| i < k < trace.spans@.len() implies (
                    #[trigger] trace.spans@[k]).event.span_id@ != parent_id@ by {
                        assert(self.span_index@[k]@ == trace.spans@[k].event.span_id@);
                    }
                    lemma_span_with_id(trace.spans@, parent_id@, i as int);
                }
                &trace.spans[i]
            },
            None => {
                proof {
                    assert forall|k: int| 0 <= k < trace.spans@.len() implies (
                    #[trigger] trace.spans@[k]).event.span_id@ != parent_id@ by {
                        assert(self.span_index@[k]@ == trace.spans@[k].event.span_id@);
                    }
                    lemma_no_span_with_id(trace.spans@, parent_id@);
                }
                &trace.spans[child]
            },
        }
    }
}

proof fn lemma_span_known(spans: Seq<NormalizedEvent>, id: Seq<char>)
    ensures
        span_with_id(spans, id) is Some <==> exists|k: int|
            0 <= k < spans.len() && (#[trigger] spans[k]).event.span_id@ == id,
    decreases spans.len(),
{
    if spans.len() > 0 {
        let rest = spans.drop_last();
        lemma_span_known(rest, id);
        if exists|k: int| 0 <= k < rest.len() && (#[trigger] rest[k]).event.span_id@ == id {
            let k = choose|k: int| 0 <= k < rest.len() && (#[trigger] rest[k]).event.span_id@ == id;
            assert(spans[k] == rest[k]);
        }
        if exists|k: int| 0 <= k < spans.len() && (#[trigger] spans[k]).event.span_id@ == id {
            let k = choose|k: int|
                0 <= k < spans.len() && (#[trigger] spans[k]).event.span_id@ == id;
            if k < rest.len() {
                assert(rest[k] == spans[k]);
            }
        }
        assert(spans[spans.len() - 1] == spans.last());
    }
}

proof fn lemma_span_with_id(spans: Seq<NormalizedEvent>, id: Seq<char>, i: int)
    requires
        0 <= i < spans.len(),
        spans[i].event.span_id@ == id,
        forall|k: int| i < k < spans.len() ==> (#[trigger] spans[k]).event.span_id@ != id,
    ensures
        span_with_id(spans, id) == Some(spans[i]),
    decreases spans.len(),
{
    if i < spans.len() - 1 {
        assert(spans[spans.len() - 1].event.span_id@ != id);
        lemma_span_with_id(spans.drop_last(), id, i);
    }
}

proof fn lemma_no_span_with_id(spans: Seq<NormalizedEvent>, id: Seq<char>)
    requires
        forall|k: int| 0 <= k < spans.len() ==> (#[trigger] spans[k]).event.span_id@ != id,
    ensures
        span_with_id(spans, id) is None,
    decreases spans.len(),
{
    if spans.len() > 0 {
        assert(spans[spans.len() - 1].event.span_id@ != id);
        lemma_no_span_with_id(spans.drop_last(), id);
    }
}

/// An identifier names the last span that carries it, if any does.
pub proof fn law_identifier_names_the_last_span_with_it(
    spans: Seq<NormalizedEvent>,
    id: Seq<char>,
)
    ensures
        span_with_id(spans, id) is None <==> forall|i: int|
            0 <= i < spans.len() ==> (#[trigger] spans[i]).event.span_id@ != id,
        span_with_id(spans, id) is Some ==> exists|i: int|
            0 <= i < spans.len() && #[trigger] spans[i] == span_with_id(spans, id)->0
                && spans[i].event.span_id@ == id && forall|j: int|
                i < j < spans.len() ==> (#[trigger] spans[j]).event.span_id@ != id,
    decreases spans.len(),
{
    if spans.len() > 0 {
        let rest = spans.drop_last();
        law_identifier_names_the_last_span_with_it(rest, id);
        assert(spans[spans.len() - 1] == spans.last());
        assert forall|i: int| 0 <= i < rest.len() implies rest[i] == #[trigger] spans[i] by {}
        if spans.last().event.span_id@ != id {
            if let Some(s) = span_with_id(rest, id) {
                let i = choose|i: int|
                    0 <= i < rest.len() && #[trigger] rest[i] == s && rest[i].event.span_id@ == id
                        && forall|j: int|
                        i < j < rest.len() ==> (#[trigger] rest[j]).event.span_id@ != id;
                assert(spans[i] == s);
                assert forall|j: int| i < j < spans.len() implies (
                #[trigger] spans[j]).event.span_id@ != id by {
                    if j < rest.len() {
                        assert(rest[j] == spans[j]);
                    }
                }
            } else {
                assert forall|i: int| 0 <= i < spans.len() implies (
                #[trigger] spans[i]).event.span_id@ != id by {
                    if i < rest.len() {
                        assert(rest[i] == spans[i]);
                    }
                }
            }
        }
    }
}

proof fn lemma_children_up_to(spans: &Vec<NormalizedEvent>, p: Seq<char>, m: nat)
    requires
        m <= spans@.len() <= usize::MAX,
    ensures
        grouping::at_positions(
            spans@,
            first_positions(m).filter(grouping::in_class(SiblingPositions { spans }, Some(p))),
        ) == spans@.take(m as int).filter(
            |s: NormalizedEvent|
                s.event.parent_span_id is Some && s.event.parent_span_id->0@ == p,
        ),
        forall|k: int|
            0 <= k < first_positions(m).filter(
                grouping::in_class(SiblingPositions { spans }, Some(p)),
            ).len() ==> #[trigger] first_positions(m).filter(
                grouping::in_class(SiblingPositions { spans }, Some(p)),
            )[k] < m,
    decreases m,
{
    reveal(Seq::filter);
    let g = SiblingPositions { spans };
    let test = |s: NormalizedEvent|
        s.event.parent_span_id is Some && s.event.parent_span_id->0@ == p;
    let inside = grouping::in_class(g, Some(p));
    let all = first_positions(m);
    if m == 0 {
        assert(grouping::at_positions(spans@, all.filter(inside)) =~= spans@.take(0).filter(test));
    } else {
        lemma_children_up_to(spans, p, (m - 1) as nat);
        assert(all.drop_last() =~= first_positions((m - 1) as nat));
        assert(spans@.take(m as int).drop_last() =~= spans@.take(m - 1));
        assert(all.last() == m - 1);
        assert(inside(all.last()) == test(spans@[m - 1]));
        assert(grouping::at_positions(spans@, all.filter(inside)) =~= spans@.take(
            m as int,
        ).filter(test));
    }
}

/// The children of a parent, by position, are the spans that name it as their parent.
pub proof fn lemma_children(spans: &Vec<NormalizedEvent>, p: Seq<char>)
    ensures
        ({
            let children = grouping::class_members(
                SiblingPositions { spans },
                first_positions(spans@.len()),
                Some(p),
            );
            &&& grouping::at_positions(spans@, children) == spans@.filter(
                |s: NormalizedEvent|
                    s.event.parent_span_id is Some && s.event.parent_span_id->0@ == p,
            )
            &&& forall|k: int| 0 <= k < children.len() ==> #[trigger] children[k] < spans@.len()
        }),
{
    assert(spans.len() == spans@.len());
    lemma_children_up_to(spans, p, spans@.len());
    assert(spans@.take(spans@.len() as int) =~= spans@);
}

} // verus!

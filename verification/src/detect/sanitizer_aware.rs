//! Sanitizer-aware classification for SQL N+1 vs redundant.
//!
//! Agents collapse SQL literals to `?` by default. Every span of an N+1 group then has the same
//! template and no parameters, so counting distinct parameters finds nothing. The heuristic here
//! recovers the classification from the instrumentation scopes and the spread of the durations.

use crate::detect::grouping;
use crate::event;
use crate::event::NormalizedEvent;
use crate::text;
use crate::wide::Wide;
use vstd::prelude::*;
use vstd::string::*;

verus! {

/// How aggressively to reclassify sanitized groups as N+1.
#[derive(Debug, Clone, Copy, PartialEq, Eq, Structural)]
pub enum SanitizerAwareMode {
    /// Reclassify when either the scope signal or the timing signal fires.
    Auto,
    /// Reclassify every sanitized group that reaches the threshold.
    Always,
    /// Disable the heuristic.
    Never,
    /// Reclassify only when two independent signals fire together.
    Strict,
}

/// Verdict of the heuristic on one group.
#[derive(Debug, Clone, Copy, PartialEq, Eq, Structural)]
pub enum SanitizerVerdict {
    /// The group looks like a sanitized N+1.
    LikelyNPlusOne,
    /// Not enough signal.
    Inconclusive,
}

impl Default for SanitizerAwareMode {
    fn default() -> (r: Self)
        ensures
            r == SanitizerAwareMode::Auto,
    {
        SanitizerAwareMode::Auto
    }
}

impl SanitizerAwareMode {
    /// The label in the configuration.
    pub open spec fn label(self) -> Seq<char> {
        match self {
            SanitizerAwareMode::Auto => "auto"@,
            SanitizerAwareMode::Always => "always"@,
            SanitizerAwareMode::Never => "never"@,
            SanitizerAwareMode::Strict => "strict"@,
        }
    }

    /// The mode that a configured value names: its label, whatever the case of the letters and the
    /// white space around it; the default mode when it names none.
    pub open spec fn configured(value: Option<Seq<char>>) -> SanitizerAwareMode {
        match value {
            None => SanitizerAwareMode::Auto,
            Some(raw) => {
                let t = text::lower(text::trimmed(raw));
                if t == SanitizerAwareMode::Always.label() {
                    SanitizerAwareMode::Always
                } else if t == SanitizerAwareMode::Never.label() {
                    SanitizerAwareMode::Never
                } else if t == SanitizerAwareMode::Strict.label() {
                    SanitizerAwareMode::Strict
                } else {
                    SanitizerAwareMode::Auto
                }
            },
        }
    }

    /// The mode that a configured value names; [`SanitizerAwareMode::Auto`] for an unknown one.
    pub fn from_config(value: Option<&str>) -> (r: Self)
        ensures
            r == SanitizerAwareMode::configured(
                match value {
                    Some(s) => Some(s@),
                    None => None,
                },
            ),
    {
        match value {
            None => SanitizerAwareMode::Auto,
            Some(raw) => {
                let t = text::lowered(&text::trimmed_chars(&text::chars_of(raw)));
                if text::spells(&t, "always") {
                    SanitizerAwareMode::Always
                } else if text::spells(&t, "never") {
                    SanitizerAwareMode::Never
                } else if text::spells(&t, "strict") {
                    SanitizerAwareMode::Strict
                } else {
                    SanitizerAwareMode::Auto
                }
            },
        }
    }

    /// Whether a configured value names a mode; an absent or blank value names the default one.
    pub fn is_known(value: Option<&str>) -> (r: bool)
        ensures
            r == (match value {
                None => true,
                Some(s) => {
                    let t = text::lower(text::trimmed(s@));
                    t.len() == 0 || t == SanitizerAwareMode::configured(Some(s@)).label()
                },
            }),
    {
        match value {
            None => true,
            Some(raw) => {
                let t = text::lowered(&text::trimmed_chars(&text::chars_of(raw)));
                t.len() == 0 || text::spells(&t, SanitizerAwareMode::from_config(value).as_str())
            },
        }
    }

    /// The label in the configuration.
    pub fn as_str(&self) -> (r: &'static str)
        ensures
            r@ == self.label(),
    {
        match self {
            SanitizerAwareMode::Auto => "auto",
            SanitizerAwareMode::Always => "always",
            SanitizerAwareMode::Never => "never",
            SanitizerAwareMode::Strict => "strict",
        }
    }
}

/// A mode's label names that mode.
pub proof fn law_label_names_its_mode(mode: SanitizerAwareMode)
    ensures
        SanitizerAwareMode::configured(Some(mode.label())) == mode,
{
    reveal_strlit("auto");
    reveal_strlit("always");
    reveal_strlit("never");
    reveal_strlit("strict");
    let t = mode.label();
    assert(text::trimmed(t) == t);
    assert(text::lower(t) =~= t);
    if mode is Always {
        assert(t == SanitizerAwareMode::Always.label());
    } else if mode is Never {
        assert(t.len() == 5);
    } else if mode is Strict {
        assert(t[0] == 's');
        assert(t[0] != "always"@[0]);
    } else {
        assert(t.len() == 4);
    }
}

/// Scope substrings that tell that an ORM is in the call stack.
pub open spec fn orm_scope_markers() -> Seq<Seq<char>> {
    seq![
        "spring-data"@,
        "springdata"@,
        "hibernate"@,
        "jpa"@,
        "micronaut-data"@,
        "jdbi"@,
        "r2dbc"@,
        "entityframeworkcore"@,
        "entity-framework"@,
        "sqlalchemy"@,
        "django.db"@,
        "active-record"@,
        "activerecord"@,
        "gorm"@,
        "sqlx"@,
        "sequelize"@,
        "prisma"@,
        "typeorm"@,
        "mongoose"@,
        "sea-orm"@,
        "diesel"@,
    ]
}

fn orm_markers() -> (r: Vec<&'static str>)
    ensures
        r@.len() == orm_scope_markers().len(),
        forall|i: int| 0 <= i < r@.len() ==> (#[trigger] r@[i])@ == orm_scope_markers()[i],
{
    vec![
        "spring-data",
        "springdata",
        "hibernate",
        "jpa",
        "micronaut-data",
        "jdbi",
        "r2dbc",
        "entityframeworkcore",
        "entity-framework",
        "sqlalchemy",
        "django.db",
        "active-record",
        "activerecord",
        "gorm",
        "sqlx",
        "sequelize",
        "prisma",
        "typeorm",
        "mongoose",
        "sea-orm",
        "diesel",
    ]
}

/// Whether a character belongs to a word: an ASCII letter or digit, or `_`.
pub open spec fn is_word(c: char) -> bool {
    ||| '0' <= c <= '9'
    ||| 'A' <= c <= 'Z'
    ||| 'a' <= c <= 'z'
    ||| c == '_'
}

/// Whether `marker` stands at position `at` as a whole word, whatever the case of the letters.
pub open spec fn marker_at(scope: Seq<char>, marker: Seq<char>, at: int) -> bool {
    &&& text::occurs_at(text::lower(scope), text::lower(marker), at)
    &&& at == 0 || !is_word(scope[at - 1])
    &&& at + marker.len() == scope.len() || !is_word(scope[at + marker.len()])
}

/// Whether a non-empty `marker` stands in `scope` as a whole word.
pub open spec fn has_marker(scope: Seq<char>, marker: Seq<char>) -> bool {
    marker.len() > 0 && exists|at: int| #[trigger] marker_at(scope, marker, at)
}

/// Whether a scope holds the marker of an ORM.
pub open spec fn is_orm_scope(scope: Seq<char>) -> bool {
    exists|m: int|
        0 <= m < orm_scope_markers().len() && has_marker(scope, #[trigger] orm_scope_markers()[m])
}

/// Whether any of the scopes holds the marker of an ORM.
pub open spec fn any_orm_scope(scopes: Seq<Seq<char>>) -> bool {
    exists|i: int| 0 <= i < scopes.len() && is_orm_scope(#[trigger] scopes[i])
}

fn is_word_char(c: char) -> (r: bool)
    ensures
        r == is_word(c),
{
    ('0' <= c && c <= '9') || ('A' <= c && c <= 'Z') || ('a' <= c && c <= 'z') || c == '_'
}

/// Case-insensitive search for a marker that stands as a whole word.
pub fn contains_marker(haystack: &str, needle: &str) -> (r: bool)
    ensures
        r == has_marker(haystack@, needle@),
{
    let h = text::chars_of(haystack);
    let lower_h = text::lower_chars(haystack);
    let lower_n = text::lower_chars(needle);
    let n = lower_n.len();
    if n == 0 || h.len() < n {
        return false;
    }
    let last = h.len() - n;
    let mut at: usize = 0;
    while at <= last
        invariant
            h@ == haystack@,
            lower_h@ == text::lower(haystack@),
            lower_n@ == text::lower(needle@),
            n == lower_n@.len(),
            n == needle@.len(),
            n > 0,
            last + n == h@.len(),
            at <= last + 1,
            h.len() <= usize::MAX,
            forall|k: int| 0 <= k < at ==> !marker_at(haystack@, needle@, k),
        decreases last + 1 - at,
    {
        if text::stands_at(&lower_h, &lower_n, at) && (at == 0 || !is_word_char(h[at - 1])) && (at
            + n == h.len() || !is_word_char(h[at + n])) {
            assert(marker_at(haystack@, needle@, at as int));
            return true;
        }
        at += 1;
    }
    false
}

/// Whether any of the scopes holds the marker of an ORM.
pub fn has_orm_scope(scopes: &[String]) -> (r: bool)
    ensures
        r == any_orm_scope(event::texts(scopes@)),
{
    let markers = orm_markers();
    let ghost all = event::texts(scopes@);
    let mut i: usize = 0;
    while i < scopes.len()
        invariant
            i <= scopes@.len(),
            all == event::texts(scopes@),
            markers@.len() == orm_scope_markers().len(),
            forall|m: int|
                0 <= m < markers@.len() ==> (#[trigger] markers@[m])@ == orm_scope_markers()[m],
            forall|k: int| 0 <= k < i ==> !is_orm_scope(#[trigger] all[k]),
        decreases scopes@.len() - i,
    {
        let mut m: usize = 0;
        while m < markers.len()
            invariant
                i < scopes@.len(),
                all == event::texts(scopes@),
                m <= markers@.len(),
                markers@.len() == orm_scope_markers().len(),
                forall|j: int|
                    0 <= j < markers@.len() ==> (#[trigger] markers@[j])@ == orm_scope_markers()[j],
                forall|j: int|
                    0 <= j < m ==> !has_marker(all[i as int], #[trigger] orm_scope_markers()[j]),
            decreases markers@.len() - m,
        {
            if contains_marker(scopes[i].as_str(), markers[m]) {
                assert(markers@[m as int]@ == orm_scope_markers()[m as int]);
                assert(is_orm_scope(all[i as int]));
                return true;
            }
            assert(markers@[m as int]@ == orm_scope_markers()[m as int]);
            m += 1;
        }
        i += 1;
    }
    false
}

/// The spans behind references.
pub open spec fn referenced(spans: Seq<&NormalizedEvent>) -> Seq<NormalizedEvent> {
    spans.map_values(|s: &NormalizedEvent| *s)
}

/// Whether the literals of a span were collapsed: it has a placeholder and no parameters.
pub open spec fn is_sanitized(s: NormalizedEvent) -> bool {
    s.params@.len() == 0 && s.template@.contains('?')
}

/// Whether every span of a group, of which there is one at least, was sanitized.
pub open spec fn all_sanitized(group: Seq<NormalizedEvent>) -> bool {
    group.len() > 0 && forall|i: int| 0 <= i < group.len() ==> is_sanitized(#[trigger] group[i])
}

fn sanitized(s: &NormalizedEvent) -> (r: bool)
    ensures
        r == is_sanitized(*s),
{
    s.params.len() == 0 && text::contains_char(s.template.as_str(), '?')
}

/// Whether every span of the group was sanitized.
pub fn looks_sanitized(spans: &[&NormalizedEvent]) -> (r: bool)
    ensures
        r == all_sanitized(referenced(spans@)),
{
    let ghost group = referenced(spans@);
    let mut i: usize = 0;
    while i < spans.len()
        invariant
            i <= spans@.len(),
            group == referenced(spans@),
            forall|k: int| 0 <= k < i ==> is_sanitized(#[trigger] group[k]),
        decreases spans@.len() - i,
    {
        if !sanitized(spans[i]) {
            assert(!is_sanitized(group[i as int]));
            return false;
        }
        i += 1;
    }
    spans.len() > 0
}

/// References to the spans at the given positions.
pub fn gather<'a>(spans: &'a Vec<NormalizedEvent>, indices: &Vec<usize>) -> (r: Vec<
    &'a NormalizedEvent,
>)
    requires
        forall|k: int| 0 <= k < indices@.len() ==> #[trigger] indices@[k] < spans@.len(),
    ensures
        referenced(r@) == grouping::at_positions(spans@, indices@),
{
    let mut out: Vec<&'a NormalizedEvent> = Vec::new();
    let mut i: usize = 0;
    while i < indices.len()
        invariant
            i <= indices@.len(),
            out@.len() == i,
            forall|k: int| 0 <= k < indices@.len() ==> #[trigger] indices@[k] < spans@.len(),
            forall|k: int| 0 <= k < i ==> *(#[trigger] out@[k]) == spans@[indices@[k] as int],
        decreases indices@.len() - i,
    {
        out.push(&spans[indices[i]]);
        i += 1;
    }
    assert(referenced(out@) =~= grouping::at_positions(spans@, indices@));
    out
}

/// `acc` followed by what it lacks of `more`, each text once.
pub open spec fn merge_texts(acc: Seq<Seq<char>>, more: Seq<Seq<char>>) -> Seq<Seq<char>>
    decreases more.len(),
{
    if more.len() == 0 {
        acc
    } else {
        let r = merge_texts(acc, more.drop_last());
        if r.contains(more.last()) {
            r
        } else {
            r.push(more.last())
        }
    }
}

/// The scopes of a group in order of first occurrence, each once.
pub open spec fn group_scopes(group: Seq<NormalizedEvent>) -> Seq<Seq<char>>
    decreases group.len(),
{
    if group.len() == 0 {
        Seq::empty()
    } else {
        merge_texts(
            group_scopes(group.drop_last()),
            event::texts(group.last().event.instrumentation_scopes@),
        )
    }
}

proof fn lemma_merge_texts(acc: Seq<Seq<char>>, more: Seq<Seq<char>>, x: Seq<char>)
    ensures
        merge_texts(acc, more).contains(x) <==> acc.contains(x) || more.contains(x),
    decreases more.len(),
{
    if more.len() > 0 {
        let rest = more.drop_last();
        lemma_merge_texts(acc, rest, x);
        let r = merge_texts(acc, rest);
        let all = merge_texts(acc, more);
        assert(more =~= rest.push(more.last()));
        if rest.contains(x) {
            let k = choose|k: int| 0 <= k < rest.len() && rest[k] == x;
            assert(more[k] == x);
        }
        if more.contains(x) && x != more.last() {
            let k = choose|k: int| 0 <= k < more.len() && more[k] == x;
            assert(rest[k] == x);
        }
        assert(more[more.len() - 1] == more.last());
        if !r.contains(more.last()) {
            assert(all[r.len() as int] == more.last());
            if r.contains(x) {
                let k = choose|k: int| 0 <= k < r.len() && r[k] == x;
                assert(all[k] == x);
            }
            if all.contains(x) && x != more.last() {
                let k = choose|k: int| 0 <= k < all.len() && all[k] == x;
                assert(r[k] == x);
            }
        }
    }
}

/// A scope is collected if and only if a span of the group carries it.
pub proof fn lemma_group_scopes(group: Seq<NormalizedEvent>, x: Seq<char>)
    ensures
        group_scopes(group).contains(x) <==> exists|i: int|
            0 <= i < group.len() && event::texts(
                (#[trigger] group[i]).event.instrumentation_scopes@,
            ).contains(x),
    decreases group.len(),
{
    if group.len() > 0 {
        let rest = group.drop_last();
        lemma_group_scopes(rest, x);
        lemma_merge_texts(
            group_scopes(rest),
            event::texts(group.last().event.instrumentation_scopes@),
            x,
        );
        if exists|i: int|
            0 <= i < rest.len() && event::texts(
                (#[trigger] rest[i]).event.instrumentation_scopes@,
            ).contains(x) {
            let i = choose|i: int|
                0 <= i < rest.len() && event::texts(
                    (#[trigger] rest[i]).event.instrumentation_scopes@,
                ).contains(x);
            assert(group[i] == rest[i]);
        }
        if exists|i: int|
            0 <= i < group.len() && event::texts(
                (#[trigger] group[i]).event.instrumentation_scopes@,
            ).contains(x) {
            let i = choose|i: int|
                0 <= i < group.len() && event::texts(
                    (#[trigger] group[i]).event.instrumentation_scopes@,
                ).contains(x);
            if i < rest.len() {
                assert(rest[i] == group[i]);
            }
        }
        assert(group[group.len() - 1] == group.last());
    }
}

fn holds_text(list: &Vec<String>, t: &String) -> (r: bool)
    ensures
        r == event::texts(list@).contains(t@),
{
    let ghost all = event::texts(list@);
    let mut i: usize = 0;
    while i < list.len()
        invariant
            i <= list@.len(),
            all == event::texts(list@),
            forall|k: int| 0 <= k < i ==> #[trigger] all[k] != t@,
        decreases list@.len() - i,
    {
        if list[i] == *t {
            assert(all[i as int] == t@);
            return true;
        }
        i += 1;
    }
    false
}

/// The instrumentation scopes of every span of the group, each once.
pub fn collect_scopes(spans: &[&NormalizedEvent]) -> (r: Vec<String>)
    ensures
        event::texts(r@) == group_scopes(referenced(spans@)),
{
    let ghost group = referenced(spans@);
    let mut out: Vec<String> = Vec::new();
    let mut i: usize = 0;
    assert(event::texts(out@) =~= group_scopes(group.take(0)));
    while i < spans.len()
        invariant
            i <= spans@.len(),
            group == referenced(spans@),
            event::texts(out@) == group_scopes(group.take(i as int)),
        decreases spans@.len() - i,
    {
        let scopes = &spans[i].event.instrumentation_scopes;
        let ghost acc = event::texts(out@);
        let ghost more = event::texts(scopes@);
        let mut j: usize = 0;
        assert(more.take(0) =~= Seq::<Seq<char>>::empty());
        while j < scopes.len()
            invariant
                j <= scopes@.len(),
                more == event::texts(scopes@),
                event::texts(out@) == merge_texts(acc, more.take(j as int)),
            decreases scopes@.len() - j,
        {
            let ghost before = out@;
            proof {
                assert(more.take(j + 1).drop_last() =~= more.take(j as int));
                assert(more.take(j + 1).last() == scopes@[j as int]@);
            }
            if !holds_text(&out, &scopes[j]) {
                out.push(scopes[j].clone());
                assert(event::texts(out@) =~= event::texts(before).push(scopes@[j as int]@));
            }
            j += 1;
        }
        proof {
            assert(more.take(j as int) =~= more);
            assert(group.take(i + 1).drop_last() =~= group.take(i as int));
            assert(group.take(i + 1).last() == *spans@[i as int]);
        }
        i += 1;
    }
    assert(group.take(i as int) =~= group);
    out
}

/// The sum of the durations of a group, in microseconds.
pub open spec fn total_duration(group: Seq<NormalizedEvent>) -> nat
    decreases group.len(),
{
    if group.len() == 0 {
        0
    } else {
        total_duration(group.drop_last()) + group.last().event.duration_us as nat
    }
}

/// The sum of the squares of the durations of a group.
pub open spec fn total_square(group: Seq<NormalizedEvent>) -> nat
    decreases group.len(),
{
    if group.len() == 0 {
        0
    } else {
        total_square(group.drop_last()) + group.last().event.duration_us as nat
            * group.last().event.duration_us as nat
    }
}

/// Whether a group of three spans or more has durations whose coefficient of variation (standard
/// deviation over mean) exceeds one half. With `n` durations of sum `s` and sum of squares `q` the
/// coefficient's square is `(n * q - s * s) / (s * s)`.
pub open spec fn durations_spread(group: Seq<NormalizedEvent>) -> bool {
    &&& group.len() >= 3
    &&& 4 * (group.len() * total_square(group)) > 5 * (total_duration(group) * total_duration(
        group,
    ))
}

/// Whether the durations of the group spread as those of lookups of different rows do.
pub fn timing_variance_suggests_n_plus_one(spans: &[&NormalizedEvent]) -> (r: bool)
    ensures
        r == durations_spread(referenced(spans@)),
{
    if spans.len() < 3 {
        return false;
    }
    let ghost group = referenced(spans@);
    let mut sum = Wide::of(0);
    let mut squares = Wide::of(0);
    let mut i: usize = 0;
    while i < spans.len()
        invariant
            i <= spans@.len(),
            group == referenced(spans@),
            sum.value() == total_duration(group.take(i as int)),
            squares.value() == total_square(group.take(i as int)),
        decreases spans@.len() - i,
    {
        let d = spans[i].event.duration_us;
        sum = sum.plus(&Wide::of(d));
        squares = squares.plus(&Wide::of(d).times(d));
        proof {
            assert(group.take(i + 1).drop_last() =~= group.take(i as int));
            assert(group.take(i + 1).last() == *spans@[i as int]);
        }
        i += 1;
    }
    assert(group.take(i as int) =~= group);
    let mut sum_squared = Wide::of(0);
    let mut j: usize = 0;
    let ghost s = sum.value() as int;
    assert(s * 0 == 0) by (nonlinear_arith);
    while j < spans.len()
        invariant
            j <= spans@.len(),
            group == referenced(spans@),
            sum.value() == s,
            sum_squared.value() == s * total_duration(group.take(j as int)),
        decreases spans@.len() - j,
    {
        let d = spans[j].event.duration_us;
        sum_squared = sum_squared.plus(&sum.times(d));
        proof {
            assert(group.take(j + 1).drop_last() =~= group.take(j as int));
            assert(group.take(j + 1).last() == *spans@[j as int]);
            let t = total_duration(group.take(j as int)) as int;
            let e = d as int;
            assert(s * (t + e) == s * t + s * e) by (nonlinear_arith);
        }
        j += 1;
    }
    assert(group.take(j as int) =~= group);
    let left = squares.times(spans.len() as u64).times(4);
    let right = sum_squared.times(5);
    proof {
        let n = group.len() as int;
        let q = total_square(group) as int;
        assert(q * n == n * q) by (nonlinear_arith);
    }
    left.exceeds(&right)
}

/// The verdict that signals give.
pub open spec fn verdict(likely: bool) -> SanitizerVerdict {
    if likely {
        SanitizerVerdict::LikelyNPlusOne
    } else {
        SanitizerVerdict::Inconclusive
    }
}

/// Verdict of the `Auto` mode: either signal alone is enough.
pub fn classify_sanitized_sql_group(spans: &[&NormalizedEvent], scopes: &[String]) -> (r:
    SanitizerVerdict)
    ensures
        r == verdict(
            any_orm_scope(event::texts(scopes@)) || durations_spread(referenced(spans@)),
        ),
{
    if has_orm_scope(scopes) || timing_variance_suggests_n_plus_one(spans) {
        SanitizerVerdict::LikelyNPlusOne
    } else {
        SanitizerVerdict::Inconclusive
    }
}

/// Verdict that requires both signals together.
pub fn classify_sanitized_sql_group_strict(spans: &[&NormalizedEvent], scopes: &[String]) -> (r:
    SanitizerVerdict)
    ensures
        r == verdict(
            any_orm_scope(event::texts(scopes@)) && durations_spread(referenced(spans@)),
        ),
{
    if has_orm_scope(scopes) && timing_variance_suggests_n_plus_one(spans) {
        SanitizerVerdict::LikelyNPlusOne
    } else {
        SanitizerVerdict::Inconclusive
    }
}

/// Whether a character is a control character.
pub open spec fn is_control(c: char) -> bool {
    c as u32 <= 0x1F || 0x7F <= c as u32 <= 0x9F
}

/// A text with its control characters replaced by `_`.
pub open spec fn redacted(t: Seq<char>) -> Seq<char> {
    t.map_values(
        |c: char|
            if is_control(c) {
                '_'
            } else {
                c
            },
    )
}

/// A text fit for a log line: at most 32 bytes of it, control characters replaced by `_`.
pub fn sanitize_for_log(value: &str) -> (r: String)
    ensures
        r@ == redacted(text::utf8_prefix(value@, 32)),
{
    proof {
        reveal_strlit("_");
    }
    let kept = text::truncate_to_utf8_boundary(value, 32);
    let chars = text::chars_of(kept);
    let mut out = String::new();
    let mut i: usize = 0;
    while i < chars.len()
        invariant
            i <= chars@.len(),
            chars@ == kept@,
            "_"@ =~= seq!['_'],
            out@ == redacted(chars@.take(i as int)),
        decreases chars@.len() - i,
    {
        let u = chars[i] as u32;
        if u <= 0x1F || (0x7F <= u && u <= 0x9F) {
            out.append("_");
        } else {
            out.append(kept.substring_char(i, i + 1));
        }
        assert(out@ =~= redacted(chars@.take(i + 1)));
        i += 1;
    }
    assert(chars@.take(i as int) =~= chars@);
    out
}

/// The durations of three spans or more spread if and only if their standard deviation exceeds half
/// their mean: with `n` durations, `n * n` times the variance is `n` times the sum of the squares,
/// less the square of the sum.
pub proof fn law_spread_compares_deviation_and_mean(group: Seq<NormalizedEvent>)
    ensures
        ({
            let n = group.len() as int;
            let sum = group.fold_left(
                0int,
                |sum: int, s: NormalizedEvent| sum + s.event.duration_us,
            );
            let squares = group.fold_left(
                0int,
                |sum: int, s: NormalizedEvent| sum + s.event.duration_us * s.event.duration_us,
            );
            durations_spread(group) <==> n >= 3 && 4 * (n * squares - sum * sum) > sum * sum
        }),
{
    lemma_sums(group);
    let n = group.len() as int;
    let sum = total_duration(group) as int;
    let squares = total_square(group) as int;
    assert(4 * (n * squares - sum * sum) > sum * sum <==> 4 * (n * squares) > 5 * (sum * sum));
}

proof fn lemma_sums(group: Seq<NormalizedEvent>)
    ensures
        group.fold_left(0int, |sum: int, s: NormalizedEvent| sum + s.event.duration_us)
            == total_duration(group),
        group.fold_left(
            0int,
            |sum: int, s: NormalizedEvent| sum + s.event.duration_us * s.event.duration_us,
        ) == total_square(group),
    decreases group.len(),
{
    if group.len() > 0 {
        lemma_sums(group.drop_last());
    }
}

/// A scope tells an ORM if and only if one of the markers stands in it as a whole word, whatever
/// the case of its letters: with no letter, digit or `_` right before or behind it.
pub proof fn law_orm_scope_holds_a_marker_as_a_word(scope: Seq<char>)
    ensures
        is_orm_scope(scope) <==> exists|m: int, at: int|
            0 <= m < orm_scope_markers().len() && 0 <= at && at + (
            #[trigger] orm_scope_markers()[m]).len() <= scope.len() && (#[trigger] text::lower(
                scope,
            ).subrange(at, at + orm_scope_markers()[m].len())) == text::lower(
                orm_scope_markers()[m],
            ) && (at == 0 || !is_word(scope[at - 1])) && (at + orm_scope_markers()[m].len()
                == scope.len() || !is_word(scope[at + orm_scope_markers()[m].len()])),
{
    lemma_markers_not_empty();
    if is_orm_scope(scope) {
        let m = choose|m: int|
            0 <= m < orm_scope_markers().len() && has_marker(
                scope,
                #[trigger] orm_scope_markers()[m],
            );
        let at = choose|at: int| #[trigger] marker_at(scope, orm_scope_markers()[m], at);
        assert(text::lower(scope).subrange(at, at + orm_scope_markers()[m].len()) == text::lower(
            orm_scope_markers()[m],
        ));
    }
    if exists|m: int, at: int|
        0 <= m < orm_scope_markers().len() && 0 <= at && at + (
        #[trigger] orm_scope_markers()[m]).len() <= scope.len() && (#[trigger] text::lower(
            scope,
        ).subrange(at, at + orm_scope_markers()[m].len())) == text::lower(orm_scope_markers()[m])
            && (at == 0 || !is_word(scope[at - 1])) && (at + orm_scope_markers()[m].len()
            == scope.len() || !is_word(scope[at + orm_scope_markers()[m].len()])) {
        let (m, at) = choose|m: int, at: int|
            0 <= m < orm_scope_markers().len() && 0 <= at && at + (
            #[trigger] orm_scope_markers()[m]).len() <= scope.len() && (#[trigger] text::lower(
                scope,
            ).subrange(at, at + orm_scope_markers()[m].len())) == text::lower(
                orm_scope_markers()[m],
            ) && (at == 0 || !is_word(scope[at - 1])) && (at + orm_scope_markers()[m].len()
                == scope.len() || !is_word(scope[at + orm_scope_markers()[m].len()]));
        assert(marker_at(scope, orm_scope_markers()[m], at));
        assert(has_marker(scope, orm_scope_markers()[m]));
    }
}

proof fn lemma_markers_not_empty()
    ensures
        forall|m: int|
            0 <= m < orm_scope_markers().len() ==> (#[trigger] orm_scope_markers()[m]).len() > 0,
{
    reveal_strlit("spring-data");
    reveal_strlit("springdata");
    reveal_strlit("hibernate");
    reveal_strlit("jpa");
    reveal_strlit("micronaut-data");
    reveal_strlit("jdbi");
    reveal_strlit("r2dbc");
    reveal_strlit("entityframeworkcore");
    reveal_strlit("entity-framework");
    reveal_strlit("sqlalchemy");
    reveal_strlit("django.db");
    reveal_strlit("active-record");
    reveal_strlit("activerecord");
    reveal_strlit("gorm");
    reveal_strlit("sqlx");
    reveal_strlit("sequelize");
    reveal_strlit("prisma");
    reveal_strlit("typeorm");
    reveal_strlit("mongoose");
    reveal_strlit("sea-orm");
    reveal_strlit("diesel");
}

/// What belongs to a word: the ASCII letters and digits and `_`.
pub proof fn law_words_are_letters_digits_and_underscores(c: char)
    ensures
        is_word(c) <==> ('a' <= c && c <= 'z') || ('A' <= c && c <= 'Z') || ('0' <= c && c <= '9')
            || c == '_',
{
}

/// The ORM markers.
pub proof fn law_markers_name_the_orms(name: Seq<char>)
    ensures
        orm_scope_markers().contains(name) <==> name == "spring-data"@ || name == "springdata"@
            || name == "hibernate"@ || name == "jpa"@ || name == "micronaut-data"@ || name
            == "jdbi"@ || name == "r2dbc"@ || name == "entityframeworkcore"@ || name
            == "entity-framework"@ || name == "sqlalchemy"@ || name == "django.db"@ || name
            == "active-record"@ || name == "activerecord"@ || name == "gorm"@ || name == "sqlx"@
            || name == "sequelize"@ || name == "prisma"@ || name == "typeorm"@ || name
            == "mongoose"@ || name == "sea-orm"@ || name == "diesel"@,
{
    let all = orm_scope_markers();
    assert(all[0] == "spring-data"@ && all[1] == "springdata"@ && all[2] == "hibernate"@ && all[3]
        == "jpa"@ && all[4] == "micronaut-data"@ && all[5] == "jdbi"@ && all[6] == "r2dbc"@
        && all[7] == "entityframeworkcore"@ && all[8] == "entity-framework"@ && all[9]
        == "sqlalchemy"@ && all[10] == "django.db"@ && all[11] == "active-record"@ && all[12]
        == "activerecord"@ && all[13] == "gorm"@ && all[14] == "sqlx"@ && all[15] == "sequelize"@
        && all[16] == "prisma"@ && all[17] == "typeorm"@ && all[18] == "mongoose"@ && all[19]
        == "sea-orm"@ && all[20] == "diesel"@);
}

/// The scopes of a group are those of its spans, each once.
pub proof fn law_scopes_of_a_group_are_those_of_its_spans(group: Seq<NormalizedEvent>, x: Seq<char>)
    ensures
        group_scopes(group).contains(x) <==> exists|i: int, j: int|
            0 <= i < group.len() && 0 <= j < group[i].event.instrumentation_scopes@.len() && (
            #[trigger] group[i].event.instrumentation_scopes@[j])@ == x,
        group_scopes(group).no_duplicates(),
{
    lemma_group_scopes(group, x);
    lemma_scopes_once(group);
    if group_scopes(group).contains(x) {
        let i = choose|i: int|
            0 <= i < group.len() && event::texts(
                (#[trigger] group[i]).event.instrumentation_scopes@,
            ).contains(x);
        let list = event::texts(group[i].event.instrumentation_scopes@);
        let j = choose|j: int| 0 <= j < list.len() && list[j] == x;
        assert(group[i].event.instrumentation_scopes@[j]@ == x);
    }
    if exists|i: int, j: int|
        0 <= i < group.len() && 0 <= j < group[i].event.instrumentation_scopes@.len() && (
        #[trigger] group[i].event.instrumentation_scopes@[j])@ == x {
        let (i, j) = choose|i: int, j: int|
            0 <= i < group.len() && 0 <= j < group[i].event.instrumentation_scopes@.len() && (
            #[trigger] group[i].event.instrumentation_scopes@[j])@ == x;
        assert(event::texts(group[i].event.instrumentation_scopes@)[j] == x);
    }
}

proof fn lemma_merged_once(acc: Seq<Seq<char>>, more: Seq<Seq<char>>)
    requires
        acc.no_duplicates(),
    ensures
        merge_texts(acc, more).no_duplicates(),
    decreases more.len(),
{
    if more.len() > 0 {
        lemma_merged_once(acc, more.drop_last());
        let r = merge_texts(acc, more.drop_last());
        let all = merge_texts(acc, more);
        if !r.contains(more.last()) {
            assert forall|i: int, j: int|
                0 <= i < all.len() && 0 <= j < all.len() && i != j implies all[i] != all[j] by {
                if i < r.len() {
                    assert(r.contains(r[i]));
                }
                if j < r.len() {
                    assert(r.contains(r[j]));
                }
            }
        }
    }
}

proof fn lemma_scopes_once(group: Seq<NormalizedEvent>)
    ensures
        group_scopes(group).no_duplicates(),
    decreases group.len(),
{
    if group.len() > 0 {
        lemma_scopes_once(group.drop_last());
        lemma_merged_once(
            group_scopes(group.drop_last()),
            event::texts(group.last().event.instrumentation_scopes@),
        );
    }
}

/// A text for a log line keeps its length: control characters become `_`, any other character
/// stays.
pub proof fn law_redaction_replaces_control_characters_only(t: Seq<char>, i: int)
    requires
        0 <= i < t.len(),
    ensures
        redacted(t).len() == t.len(),
        t[i] as u32 <= 31 || 127 <= t[i] as u32 <= 159 ==> redacted(t)[i] == '_',
        !(t[i] as u32 <= 31 || 127 <= t[i] as u32 <= 159) ==> redacted(t)[i] == t[i],
{
}

/// A configured value names the mode whose label it is, whatever the case of its letters and the
/// white space around it, and the automatic mode where it is no label.
pub proof fn law_configured_value_names_a_mode(value: Seq<char>)
    ensures
        ({
            let word = text::lower(text::trimmed(value));
            let mode = SanitizerAwareMode::configured(Some(value));
            &&& mode is Always <==> word == "always"@
            &&& mode is Never <==> word == "never"@
            &&& mode is Strict <==> word == "strict"@
            &&& mode is Auto <==> word != "always"@ && word != "never"@ && word != "strict"@
            &&& SanitizerAwareMode::configured(None) is Auto
        }),
{
    reveal_strlit("always");
    reveal_strlit("never");
    reveal_strlit("strict");
    assert("always"@.len() == 6 && "never"@.len() == 5 && "strict"@.len() == 6);
    assert("always"@[0] == 'a' && "strict"@[0] == 's');
}

} // verus!
